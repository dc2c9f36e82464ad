use sokomind::board::parse_board;
use sokomind::budget::Budget;
use sokomind::config::SolverLimits;
use sokomind::dense_state::DenseState;
use sokomind::exact_state::ExactStateKey;
use sokomind::improvement::box_rescheduling::identify_segments;
use sokomind::log::format::format_telemetry;
use sokomind::log::TelemetryCounters;
use sokomind::pattern_database::choose_combinations;
use sokomind::pipeline::ProofKind;
use sokomind::position::Direction;
use sokomind::priority_queue::MinPriorityQueue;
use sokomind::rng::SplitMix64;
use sokomind::solver_proof::{bounded_proof, optimal_proof, unsolvable_proof};
use sokomind::verification::{verify_solution, VerificationError};

// ---- budget ----

#[test]
fn fresh_budget_not_exhausted() {
    let limits = SolverLimits { max_expanded_states: Some(100), ..Default::default() };
    let budget = Budget::new(&limits);
    assert!(!budget.exhausted());
}

#[test]
fn exhausted_by_expansion() {
    let limits = SolverLimits {
        max_expanded_states: Some(5),
        max_time_ms: None,
        max_generated_states: None,
        max_memory_bytes: None,
    };
    let mut budget = Budget::new(&limits);
    for _ in 0..5 {
        budget.tick_expanded();
    }
    assert!(budget.exhausted());
}

#[test]
fn memory_check() {
    let limits = SolverLimits { max_memory_bytes: Some(1024), ..Default::default() };
    let budget = Budget::new(&limits);
    assert!(budget.memory_ok(512));
    assert!(!budget.memory_ok(2048));
}

#[test]
fn budget_time_and_generated_limits() {
    let limits = SolverLimits {
        max_time_ms: Some(2),
        max_expanded_states: None,
        max_generated_states: Some(10),
        max_memory_bytes: None,
    };
    let mut budget = Budget::new(&limits);
    assert!(!budget.exhausted_at(1999));
    assert!(budget.exhausted_at(2000));
    budget.tick_generated(9);
    assert!(!budget.exhausted_at(0));
    budget.tick_generated(1);
    assert!(budget.exhausted_at(0));
    assert_eq!(budget.generated(), 10);
    assert_eq!(budget.expanded(), 0);
}

// ---- priority queue ----

#[test]
fn min_order() {
    let mut pq = MinPriorityQueue::new();
    pq.push(5, "five");
    pq.push(1, "one");
    pq.push(3, "three");
    assert_eq!(pq.pop(), Some((1, "one")));
    assert_eq!(pq.pop(), Some((3, "three")));
    assert_eq!(pq.pop(), Some((5, "five")));
    assert_eq!(pq.pop(), None);
}

#[test]
fn peek_returns_min() {
    let mut pq = MinPriorityQueue::new();
    pq.push(10, ());
    pq.push(2, ());
    assert_eq!(pq.peek(), Some(&2));
}

#[test]
fn len_and_empty() {
    let mut pq: MinPriorityQueue<i32, ()> = MinPriorityQueue::new();
    assert!(pq.is_empty());
    assert_eq!(pq.len(), 0);
    pq.push(1, ());
    assert!(!pq.is_empty());
    assert_eq!(pq.len(), 1);
}

#[test]
fn duplicate_keys() {
    let mut pq = MinPriorityQueue::new();
    pq.push(3, "a");
    pq.push(3, "b");
    pq.push(1, "c");
    assert_eq!(pq.pop().unwrap().0, 1);
    let next = pq.pop().unwrap();
    assert_eq!(next.0, 3);
}

#[test]
fn equal_keys_leave_in_insertion_order() {
    let mut pq: MinPriorityQueue<u32, char> = MinPriorityQueue::with_capacity(4);
    pq.push(7, 'a');
    pq.push(2, 'b');
    pq.push(7, 'c');
    pq.push(2, 'd');
    let order: Vec<char> = std::iter::from_fn(|| pq.pop().map(|(_, v)| v)).collect();
    assert_eq!(order, vec!['b', 'd', 'a', 'c']);
}

// ---- proof ----

#[test]
fn bounded_gap() {
    let p = bounded_proof(10, 15);
    assert_eq!(p.kind, ProofKind::Bounded);
    assert_eq!(p.gap, 5);
}

#[test]
fn bounded_gap_saturates() {
    let p = bounded_proof(15, 10);
    assert_eq!(p.gap, 0);
    assert_eq!(p.lower_bound, 15);
}

#[test]
fn optimal_zero_gap() {
    let p = optimal_proof(42);
    assert_eq!(p.kind, ProofKind::Optimal);
    assert_eq!(p.gap, 0);
    assert_eq!(p.lower_bound, 42);
}

#[test]
fn unsolvable() {
    let p = unsolvable_proof();
    assert_eq!(p.kind, ProofKind::Unsolvable);
}

// ---- rng ----

#[test]
fn deterministic() {
    let mut a = SplitMix64::new(42);
    let mut b = SplitMix64::new(42);
    for _ in 0..100 {
        assert_eq!(a.next_u64(), b.next_u64());
    }
}

#[test]
fn different_seeds_differ() {
    let mut a = SplitMix64::new(0);
    let mut b = SplitMix64::new(1);
    let mut same = 0;
    for _ in 0..100 {
        if a.next_u64() == b.next_u64() {
            same += 1;
        }
    }
    assert!(same < 5);
}

#[test]
fn shuffle_preserves_elements() {
    let mut rng = SplitMix64::new(99);
    let mut v: Vec<u32> = (0..20).collect();
    let original: Vec<u32> = v.clone();
    rng.shuffle(&mut v);
    v.sort();
    assert_eq!(v, original);
}

#[test]
fn splitmix_known_value() {
    // SplitMix64 with seed 0: the first output of the reference generator.
    let mut r = SplitMix64::new(0);
    assert_eq!(r.next_u64(), 0xe220a8397b1dcdaf);
}

// ---- verification ----

#[test]
fn verify_valid_solution() {
    let rows = &["OOOOO", "O  SO", "O XRO", "O   O", "OOOOO"];
    let board = parse_board(rows).unwrap();
    let steps = vec![
        (Direction::Down, false),
        (Direction::Left, false),
        (Direction::Up, true),
        (Direction::Down, false),
        (Direction::Left, false),
        (Direction::Up, false),
        (Direction::Up, false),
        (Direction::Right, true),
    ];
    let result = verify_solution(&board, &steps);
    assert!(result.is_ok(), "expected valid: {:?}", result);
    let (moves, pushes) = result.unwrap();
    assert_eq!(moves, 8);
    assert_eq!(pushes, 2);
}

#[test]
fn verify_blocked() {
    let rows = &["OOOOO", "O  SO", "O XRO", "O   O", "OOOOO"];
    let board = parse_board(rows).unwrap();
    let steps = vec![(Direction::Right, false)];
    assert_eq!(verify_solution(&board, &steps), Err(VerificationError::Blocked { step: 0 }));
}

#[test]
fn verify_not_solved() {
    let rows = &["OOOOO", "O  SO", "O XRO", "O   O", "OOOOO"];
    let board = parse_board(rows).unwrap();
    let steps = vec![(Direction::Down, false)];
    assert_eq!(verify_solution(&board, &steps), Err(VerificationError::NotSolved));
}

#[test]
fn verify_push_mismatch() {
    let rows = &["OOOOO", "O  SO", "O XRO", "O   O", "OOOOO"];
    let board = parse_board(rows).unwrap();
    let steps = vec![(Direction::Down, true)];
    assert_eq!(
        verify_solution(&board, &steps),
        Err(VerificationError::PushMismatch { step: 0, expected: true, actual: false })
    );
}

// ---- exact state ----

#[test]
fn equal_states_equal_keys() {
    let s1 = DenseState { keeper_cell: 3, keeper_zone: 3, box_cells: vec![(1, 0), (5, 0)], moves: 0, pushes: 0 };
    let s2 = DenseState { keeper_cell: 3, keeper_zone: 3, box_cells: vec![(1, 0), (5, 0)], moves: 10, pushes: 5 };
    assert_eq!(ExactStateKey::from_dense(&s1), ExactStateKey::from_dense(&s2));
}

#[test]
fn different_keeper_different_key() {
    let s1 = DenseState { keeper_cell: 3, keeper_zone: 3, box_cells: vec![(1, 0)], moves: 0, pushes: 0 };
    let s2 = DenseState { keeper_cell: 4, keeper_zone: 4, box_cells: vec![(1, 0)], moves: 0, pushes: 0 };
    assert_ne!(ExactStateKey::from_dense(&s1), ExactStateKey::from_dense(&s2));
}

// ---- segments ----

#[test]
fn identify_segments_basic() {
    let pushes = vec![
        (0, Direction::Up),
        (0, Direction::Right),
        (1, Direction::Down),
        (1, Direction::Left),
        (0, Direction::Up),
    ];
    let segs = identify_segments(&pushes);
    assert_eq!(segs.len(), 3);
    assert_eq!(segs[0].box_index, 0);
    assert_eq!(segs[0].len, 2);
    assert_eq!(segs[1].box_index, 1);
    assert_eq!(segs[1].len, 2);
    assert_eq!(segs[2].box_index, 0);
    assert_eq!(segs[2].len, 1);
}

#[test]
fn segments_single_box() {
    let pushes = vec![(0, Direction::Up), (0, Direction::Right)];
    let segs = identify_segments(&pushes);
    assert_eq!(segs.len(), 1);
    assert_eq!(segs[0].box_index, 0);
    assert_eq!(segs[0].len, 2);
}

#[test]
fn segments_empty() {
    assert!(identify_segments(&[]).is_empty());
}

// ---- telemetry ----

#[test]
fn zero_counters_omitted() {
    let tel = TelemetryCounters::default();
    let formatted = format_telemetry(&tel);
    assert!(formatted.is_empty());
}

#[test]
fn telemetry_formatting() {
    let mut tel = TelemetryCounters::default();
    tel.expanded_states = 42;
    tel.generated_states = 100;
    let formatted = format_telemetry(&tel);
    assert!(formatted.contains("expanded_states=42"));
    assert!(formatted.contains("generated_states=100"));
}

#[test]
fn telemetry_sorted_and_totalled() {
    let mut tel = TelemetryCounters::default();
    tel.transposition_unique = 7;
    tel.deadlock_static_prunes = 3;
    tel.deadlock_freeze_prunes = 2;
    tel.peak_memory_bytes = 10;
    assert_eq!(
        format_telemetry(&tel),
        "deadlock.freeze=2, deadlock.static=3, peak_memory_bytes=10, transposition.unique=7"
    );
    assert_eq!(tel.total_deadlock_prunes(), 5);
}

// ---- combinations ----

#[test]
fn choose_combinations_basic() {
    let items = vec![1u16, 2, 3, 4];
    let mut results = Vec::new();
    choose_combinations(&items, 2, &mut Vec::new(), &mut |combo| {
        results.push(combo.to_vec());
    });
    assert_eq!(results.len(), 6); // C(4,2) = 6
}

#[test]
fn choose_combinations_order() {
    let items = vec![5u16, 6, 7];
    let mut results = Vec::new();
    choose_combinations(&items, 2, &mut Vec::new(), &mut |combo| {
        results.push(combo.to_vec());
    });
    assert_eq!(results, vec![vec![5, 6], vec![5, 7], vec![6, 7]]);
}
