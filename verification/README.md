# BoardBits

A verified bitboard for a falling-block puzzle board of 8 columns by 16 rows
(a 6 by 12 playing field inside a one-cell wall, plus spare rows above).
The board is a 128-bit value kept as two 64-bit words; column `x` is the
16-bit lane `x` of the value, and row `y` of that column is bit `y` of the lane.

- `src/lanes.rs`: the lane model of a 64-bit word, bit counting, and the
  lemmas that carry word operations over to lanes and cells.
- `src/bmi.rs`: parallel bit extract and deposit, with their round-trip laws.
- `src/board.rs`: `BoardBits`, its view (eight 16-bit columns), cells, and
  operations: fixed boards, single cells, get and set, shifts, counts, lowest
  cell, per-column lowest bit, maximum and counts, and the masks used to drop
  popped cells.
- `src/ops.rs`, `src/eq.rs`: `&`, `|`, `^`, `==`, and conversions from text,
  from and into a pair of words.

Every function is verified with Verus against its contract (the crate builds
under the name `lib`); `tests/` runs the library on concrete boards.
