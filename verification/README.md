# Shark

The board core of a chess engine, verified with Verus.

```
src/
  geometry.rs   the board as mathematics on square indices
  types.rs      colors, pieces, squares, directions, packed moves
  bitboard.rs   sets of squares in a 64-bit word
  attacks.rs    attack sets of every piece, direct and by table
  magic.rs      magic-bitboard tables for the sliders
  zobrist.rs    hashing keys
  text.rs       words, numbers and diagrams
  state.rs      the model of a position, and what a move does to it
  position.rs   the position: three board views, hash, make and undo
  fen.rs        the text notation of a position
  movegen.rs    pseudo-legal and legal move generation
  legality.rs   the generated moves are the moves of chess
  perft.rs      counting the game tree
  see.rs        static exchange evaluation
  tt.rs         transposition table
  nnue.rs       network evaluation: features, file format, integer inference
tests/          tests of the library
app/            network files on disk and the floating-point end of evaluation
```

A position is modelled by its `State`: the board as a sequence of 64 cells, side to
move, castling rights, en-passant target and clocks. What the library states about
itself, beyond the contracts of its functions, stands in the proof functions whose
names begin with `law_`: undoing a move restores the position, a FEN text is read
back as the position it was written from, the legal moves are exactly the
pseudo-legal moves that do not leave the own king attacked, legal play stays
regular, an incrementally updated accumulator is the accumulator of the new
position, and more.
