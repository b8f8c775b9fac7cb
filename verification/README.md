# rustoku

A sudoku library: puzzles of box sizes two to ten, a brute-force solver that finds every
solution (up to five), and a human-style solver that works through techniques from the
easiest (single candidates) to the hardest (finned fish and guesses), each giving hints
as moves that can be made on the puzzle and undone.

Every function of the library in `src/` carries a contract that Verus proves: what it
returns, how it changes the puzzle, and when it fails.

- `src/sudoku/` — the puzzle: building it from input, reading it, setting values, removing
  possibilities, undoing moves, turning it a quarter.
- `src/brute.rs` — the brute-force search; its solutions are exactly the grids that fill
  the puzzle without clashes.
- `src/human_calcs/` — the techniques and the human solver that tries them in order; every
  hint of a technique agrees with the puzzle's unique solution (`kept.rs`), so a puzzle
  with exactly one solution is always solved, and solved to that solution.
- `src/bitset/`, `src/grid/`, `src/square/` — sets of values as bits, cells and houses.
- `tests/` — examples and laws on concrete puzzles.
- `app/` — the one piece that needs floating point: a difficulty rating as a float.
