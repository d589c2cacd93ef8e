# sudoku_rs_core

Sudoku grids of any box shape up to 31 digits: solving, generating, and searching for puzzles
that need a given technique. The library is written in Verus, and every function in `src/`
is proved against its contract.

- `src/generic/`: grids and their solutions, single propagation, search, canonical forms, the
  tables of constraint variables and groups, techniques (fish, hidden quads, almost locked sets,
  alternating chains), and the searches that construct puzzles for them.
- `src/vicinity/`: small changes to 9x9 puzzles, the climb towards a higher braid rating, and the
  stream of what it puts out.
- `src/command/`: what command lines and files of puzzles say, and what goes into the output.
- `src/bitboard.rs`, `src/lexing.rs`: tables of the 9x9 grid, and taking texts apart.
- `app/`: the command-line program. It reads and writes files, runs threads, and talks to an
  external rating engine.
- `tests/`: tests of the compiled library.

What is trusted rather than proved is marked `external_body` or `assume_specification`; the
random generator and the names for what it draws are in `src/generic/rng.rs`. Nothing is assumed
of raters and of the searches for g-braids and tridagons: the contracts hold whatever they answer.
