# prokopakop

A UCI chess engine whose core is verified with Verus.

## Layout

- `src/` — the verified library.
  - Board and rules: `pieces`, `square`, `board_move` (move encoding and long
    algebraic notation), `rules` (the mathematical model of positions, legal
    moves, making and unmaking moves), `board` (the bitboard `Game`), `movegen`,
    `consistency` (which positions can arise in play), `zobrist`, `fen`,
    `bitboard` (attack tables and magic-number checks), `perft`, `laws`.
  - Engine state: `controller` (the UCI session state and its options),
    `cli` (UCI command parsing), `limits` (`go` parameters and time
    allocation), `stats`, `killer`, `history`, `table` (transposition table),
    `repetition`, `nnue` (quantised network arithmetic).
  - Data: `pgn` (reading games), `book` (opening book, its file lines),
    `training` (game results for self-play), `tables` and `text` (the hash
    maps and string operations of outside code the library relies on).
- `app/` — the program around the library: the UCI loop, the search
  thread, the floating-point search and evaluation, file input and output,
  magic-number generation and self-play data generation.
- `tests/` — tests of the library.
