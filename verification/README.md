# str8ts_solver

Solving, rating and generating Str8ts puzzles. The library's functions carry
contracts checked by Verus; what each contract covers is stated with it.

A board is written as 81 characters, row by row: `.` an empty white cell,
`1`–`9` a white cell with a given digit, `#` a black cell, `a`–`i` a black cell
with the clue 1–9 (whitespace is ignored).

## Layout

- `src/` — the verified library.
  - `board.rs`: the board format, parsing, the two board types and their
    well-formedness (compartments are the maximal white runs).
  - `backtrack.rs`: a depth-first solver; on success the board is a solution
    extending the givens, on failure none exists.
  - `sat.rs`: the CNF encoding of the rules, solving with a SAT solver and
    classifying a puzzle as without, with one, or with several solutions.
  - `hopcroft_karp.rs`: maximum bipartite matching (proved maximum).
  - `mask.rs`, `candidates.rs`, `moves.rs`: candidate masks, compartment
    ranges, and the moves every strategy is allowed to make.
  - `basic.rs`, `sets.rs`, `setti.rs`, `guess.rs`: the human strategies.
  - `order.rs`, `hardness.rs`, `describe.rs`: the strategies sorted by
    hardness, their ratings and their descriptions.
  - `human.rs`: next step, applying a step, solving and rating like a human.
  - `marks.rs`: reading a player's pencil marks from JSON.
  - `generator.rs`, `random.rs`: difficulty levels, black-pattern checks and
    generation on a given pattern.
  - `render.rs`: drawing a board for a terminal.
  - `text.rs`: the calls into `std` for characters and strings.
- `tests/` — tests of the library.
- `app/` — the command-line program, the functions exported to the web page,
  and the drawing of black patterns (floating-point probabilities).
