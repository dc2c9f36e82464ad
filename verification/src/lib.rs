pub mod bfs;
pub mod bits;
pub mod board;
pub mod config;
pub mod counters;
pub mod game;
pub mod log;
pub mod pipeline;
pub mod position;
pub mod solver_proof;
pub mod puzzle;
pub mod replay;
pub mod text;
pub mod types;
pub mod verification;
pub mod rng;
pub mod budget;
pub mod priority_queue;
pub mod dense_state;
pub mod exact_state;
pub mod improvement;
pub mod pattern_database;
pub mod assignment;
pub mod graph;
pub mod compiled_board;
pub mod reachability;
pub mod topology;
pub mod deadlock;
pub mod sorting;
pub mod search;
pub mod transposition;
pub mod macros;
pub mod goal_commitment;
pub mod linear_conflict;
pub mod interaction_boost;
pub mod planning;
pub mod heuristic;
pub mod solution;
