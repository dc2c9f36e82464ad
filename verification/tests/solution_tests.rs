use sokomind::rng::SplitMix64;
use sokomind::board::parse_board;
use sokomind::compiled_board::CompiledBoard;
use sokomind::deadlock::DeadlockChecker;
use sokomind::game::{create_snapshot, step_snapshot};
use sokomind::pipeline::{ProofKind, SolverStatus};
use sokomind::position::{Direction, Position};
use sokomind::replay::{decode_action_log, encode_action_log};
use sokomind::solution::{finish_result, pushes_to_solution, PushConversionError, SearchOutcome};
use sokomind::verification::VerificationError;

const SMALL: [&str; 5] = ["OOOOO", "O  SO", "O XRO", "O   O", "OOOOO"];

#[test]
fn typed_box_blocked_by_foreign_goal() {
    // Box 'A' at (1,2) would go onto goal 'b' at (1,3): the step is blocked.
    let board = parse_board(&["OOOOOOO", "ORAb aO", "OB    O", "OOOOOOO"]).unwrap();
    let s = create_snapshot(&board);
    let r = step_snapshot(&board, &s, Direction::Right);
    assert!(!r.moved);
    assert!(!r.pushed);
    assert_eq!(r.snapshot.robot, Position::new(1, 1));
    assert_eq!(r.snapshot.boxes[0].position, Position::new(1, 2));
}

#[test]
fn typed_box_onto_own_goal_moves() {
    let board = parse_board(&["OOOOOOO", "ORAa bO", "OB    O", "OOOOOOO"]).unwrap();
    let s = create_snapshot(&board);
    let r = step_snapshot(&board, &s, Direction::Right);
    assert!(r.moved);
    assert!(r.pushed);
    assert_eq!(r.snapshot.boxes[0].position, Position::new(1, 3));
}

#[test]
fn decode_reports_first_invalid_char() {
    assert!(decode_action_log("UDxLq").is_err());
    let dirs = vec![Direction::Up, Direction::Left, Direction::Right, Direction::Down];
    assert_eq!(decode_action_log(&encode_action_log(&dirs)).unwrap(), dirs);
    assert_eq!(decode_action_log("udlr").unwrap().len(), 4);
}

#[test]
fn pushes_become_verified_solution() {
    let board = parse_board(&SMALL).unwrap();
    let cb = CompiledBoard::from_parsed(&board);
    let sol = pushes_to_solution(&cb, &board, &[(0, Direction::Up), (0, Direction::Right)]).unwrap();
    assert_eq!(sol.pushes, 2);
    assert_eq!(sol.moves, 6);
    assert!(sol.final_snapshot.solved);
    assert_eq!(sol.steps.len(), 6);
}

#[test]
fn unsolving_pushes_fail_verification() {
    let board = parse_board(&SMALL).unwrap();
    let cb = CompiledBoard::from_parsed(&board);
    match pushes_to_solution(&cb, &board, &[(0, Direction::Left)]) {
        Err(PushConversionError::Verification(VerificationError::NotSolved)) => {},
        _ => panic!("expected a failed verification"),
    }
}

#[test]
fn finish_solved_optimal() {
    let board = parse_board(&SMALL).unwrap();
    let cb = CompiledBoard::from_parsed(&board);
    let deadlocks = DeadlockChecker::new(&cb);
    let outcome = SearchOutcome::Solved { pushes: vec![(0, Direction::Up), (0, Direction::Right)], optimal: true };
    let (status, solution, proof) = finish_result(&cb, &deadlocks, &board, outcome, false);
    assert!(matches!(status, SolverStatus::Solved));
    assert_eq!(solution.unwrap().pushes, 2);
    let p = proof.unwrap();
    assert_eq!(p.kind, ProofKind::Optimal);
    assert_eq!(p.lower_bound, 2);
    assert_eq!(p.gap, 0);
}

#[test]
fn finish_solved_bounded() {
    let board = parse_board(&SMALL).unwrap();
    let cb = CompiledBoard::from_parsed(&board);
    let deadlocks = DeadlockChecker::new(&cb);
    let outcome = SearchOutcome::Solved { pushes: vec![(0, Direction::Up), (0, Direction::Right)], optimal: false };
    let (status, solution, proof) = finish_result(&cb, &deadlocks, &board, outcome, false);
    assert!(matches!(status, SolverStatus::Solved));
    assert_eq!(solution.unwrap().pushes, 2);
    let p = proof.unwrap();
    assert_eq!(p.kind, ProofKind::Bounded);
    assert_eq!(p.lower_bound, 0);
    assert_eq!(p.upper_bound, 2);
}

#[test]
fn finish_exhausted_and_budget() {
    let board = parse_board(&SMALL).unwrap();
    let cb = CompiledBoard::from_parsed(&board);
    let deadlocks = DeadlockChecker::new(&cb);
    let (status, solution, proof) = finish_result(&cb, &deadlocks, &board, SearchOutcome::Exhausted, false);
    assert!(matches!(status, SolverStatus::Unsolved { .. }));
    assert!(solution.is_none());
    assert_eq!(proof.unwrap().kind, ProofKind::Unsolvable);
    let (status, _, proof) = finish_result(&cb, &deadlocks, &board, SearchOutcome::BudgetExceeded, true);
    assert!(matches!(status, SolverStatus::Cancelled));
    assert!(proof.is_none());
    let (status, _, _) = finish_result(&cb, &deadlocks, &board, SearchOutcome::BudgetExceeded, false);
    match status {
        SolverStatus::Unsolved { reason } => assert_eq!(reason, "budget exceeded"),
        _ => panic!("expected unsolved"),
    }
}

#[test]
fn finish_conversion_failure_is_unsolved() {
    let board = parse_board(&SMALL).unwrap();
    let cb = CompiledBoard::from_parsed(&board);
    let deadlocks = DeadlockChecker::new(&cb);
    let outcome = SearchOutcome::Solved { pushes: vec![(0, Direction::Left)], optimal: true };
    let (status, solution, proof) = finish_result(&cb, &deadlocks, &board, outcome, false);
    match status {
        SolverStatus::Unsolved { reason } => {
            assert_eq!(reason, "solution verification failed: puzzle not solved after replay")
        },
        _ => panic!("expected unsolved"),
    }
    assert!(solution.is_none());
    assert!(proof.is_none());
}

#[test]
fn splitmix_same_seed_same_draws() {
    let mut a = SplitMix64::new(42);
    let mut b = SplitMix64::new(42);
    for _ in 0..100 {
        assert_eq!(a.next_u64(), b.next_u64());
    }
    let mut c = SplitMix64::new(0);
    let mut d = SplitMix64::new(1);
    let mut same = 0;
    for _ in 0..100 {
        if c.next_u64() == d.next_u64() {
            same += 1;
        }
    }
    assert!(same < 5);
}
