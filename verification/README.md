# sokomind

A Sokoban engine library, written in Verus: the game rules, the board
compiler, deadlock detection, heuristics, room planning, successor
generation and the solution improvement passes, each with a contract proved
by Verus. These are the parts a solver is built from; the solver's own
searches (A*, beam search) are not part of this crate.

## Layout

- `src/` — the verified library.
  - `board`, `game`, `replay`, `verification`, `puzzle`, `types`, `position`,
    `text`: parsing boards, the rules of a step, replaying and verifying
    action logs.
  - `compiled_board`, `reachability`, `topology`, `bfs`, `graph`: the board
    as a graph of floor cells, keeper reachability, dead cells.
  - `deadlock/`: the deadlock detectors and the precomputed deadlock table.
  - `assignment`, `linear_conflict`, `interaction_boost`, `pattern_database`,
    `heuristic`: lower bounds on the pushes still needed.
  - `planning/`: rooms and doorways, corral ordering, doorway scheduling.
  - `search/`: successor generation and the integer helpers of the beam
    search; `macros/`, `goal_commitment`, `transposition`, `priority_queue`,
    `dense_state`, `exact_state`: search support.
  - `improvement/`: the passes that shorten a push sequence.
  - `solution`: turning pushes into a verified solution and reporting the
    result of a run.
- `tests/` — tests run against the compiled library.
- `app/` — serializable copies of the game's data types, with conversions.
