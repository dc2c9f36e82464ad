use sokomind::assignment::hungarian;

#[test]
fn identity_assignment() {
    let cost = vec![vec![0, 10, 10], vec![10, 0, 10], vec![10, 10, 0]];
    let (total, assign) = hungarian(&cost);
    assert_eq!(total, 0);
    assert_eq!(assign, vec![0, 1, 2]);
}

#[test]
fn simple_3x3() {
    let cost = vec![vec![1, 2, 3], vec![2, 4, 6], vec![3, 6, 9]];
    let (total, _assign) = hungarian(&cost);
    assert_eq!(total, 10);
}

#[test]
fn rectangular_2x3() {
    let cost = vec![vec![5, 1, 3], vec![2, 8, 7]];
    let (total, assign) = hungarian(&cost);
    assert_eq!(total, 3);
    assert_eq!(assign[0], 1);
    assert_eq!(assign[1], 0);
}

#[test]
fn single_element() {
    let cost = vec![vec![42]];
    let (total, assign) = hungarian(&cost);
    assert_eq!(total, 42);
    assert_eq!(assign, vec![0]);
}

#[test]
fn empty() {
    let cost: Vec<Vec<u32>> = vec![];
    let (total, assign) = hungarian(&cost);
    assert_eq!(total, 0);
    assert!(assign.is_empty());
}

#[test]
fn larger_problem() {
    let cost = vec![
        vec![7, 53, 183, 439],
        vec![497, 383, 563, 79],
        vec![627, 343, 773, 959],
        vec![340, 393, 469, 611],
    ];
    let (total, _) = hungarian(&cost);
    assert!(total <= 7 + 79 + 343 + 469);
}

#[test]
fn all_same_cost() {
    let cost = vec![vec![5, 5, 5], vec![5, 5, 5], vec![5, 5, 5]];
    let (total, _) = hungarian(&cost);
    assert_eq!(total, 15);
}

/// Least cost of assigning rows `row..` to columns not yet taken.
fn best_from(cost: &[Vec<u32>], row: usize, taken: &mut Vec<bool>) -> u64 {
    if row == cost.len() {
        return 0;
    }
    let mut best = u64::MAX;
    for j in 0..cost[0].len() {
        if !taken[j] {
            taken[j] = true;
            let rest = best_from(cost, row + 1, taken);
            taken[j] = false;
            if rest != u64::MAX {
                best = best.min(rest + cost[row][j] as u64);
            }
        }
    }
    best
}

/// Brute force over all injective assignments, for comparison.
fn brute_force(cost: &[Vec<u32>]) -> u64 {
    let mut taken = vec![false; cost[0].len()];
    best_from(cost, 0, &mut taken)
}

#[test]
fn larger_problem_exact_optimum() {
    let cost = vec![
        vec![7, 53, 183, 439],
        vec![497, 383, 563, 79],
        vec![627, 343, 773, 959],
        vec![340, 393, 469, 611],
    ];
    let (total, assign) = hungarian(&cost);
    assert_eq!(total as u64, brute_force(&cost));
    assert_eq!(total, 7 + 79 + 343 + 469);
    assert_eq!(assign, vec![0, 3, 1, 2]);
}

#[test]
fn matches_brute_force_on_pseudo_random_matrices() {
    let mut state: u64 = 12345;
    for rows in 1..=4usize {
        for cols in rows..=5usize {
            for _ in 0..5 {
                let mut cost = Vec::new();
                for _ in 0..rows {
                    let mut row = Vec::new();
                    for _ in 0..cols {
                        state = state.wrapping_mul(6364136223846793005).wrapping_add(1442695040888963407);
                        row.push(((state >> 33) % 1000) as u32);
                    }
                    cost.push(row);
                }
                let (total, assign) = hungarian(&cost);
                assert_eq!(total as u64, brute_force(&cost));
                let mut seen = vec![false; cols];
                let mut sum: u64 = 0;
                for (i, &j) in assign.iter().enumerate() {
                    assert!(j < cols);
                    assert!(!seen[j]);
                    seen[j] = true;
                    sum += cost[i][j] as u64;
                }
                assert_eq!(sum, total as u64);
            }
        }
    }
}

#[test]
fn large_costs_near_the_limit() {
    let big = u32::MAX / 2;
    let cost = vec![vec![big, 1], vec![1, big]];
    let (total, assign) = hungarian(&cost);
    assert_eq!(total, 2);
    assert_eq!(assign, vec![1, 0]);
}
