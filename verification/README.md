# sudoku

A sudoku board with a backtracking solver, a solution counter and a puzzle
generator, verified with Verus.

- `src/grid.rs` – the `array2d` grid that stores the cells, and what is assumed of it.
- `src/bits.rs` – candidate masks (one bit per digit) and the `bitvec` scan of their set bits.
- `src/rules.rs` – the model: units, completions of a board, consistency of the masks, and the lemmas about them.
- `src/playfield.rs` – the board: writing cells, solving, counting, generating.
- `src/shuffle.rs` – the random order of the generator, from `rand`.
- `src/laws.rs` – properties that span several operations.
- `src/ui.rs` – cell labels, button captions and cell shades.
- `app/` – the bevy window around the board.
