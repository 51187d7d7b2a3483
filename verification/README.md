# chess_notation

A verified library for chess notation: standard algebraic notation (SAN) for
single moves, and Forsyth-Edwards Notation (FEN) for whole positions. Every
function's contract says exactly what it returns, and Verus proves it.

Layout:

- `src/text.rs`: character classes, decimal numbers (`str::parse::<u32>` and
  writing), `split_whitespace` and `split` on a character, each against a
  specification of the text.
- `src/san.rs`: `Piece`, `Square`, `SanMove`, `ParseError`, `parse_san` and
  the text of a move; `san_result` says what `parse_san` returns for every
  input, `SanMove::text` what is written. Proved: writing a well-formed move
  and parsing it gives it back, every parsed move is well formed, and every
  accepted text but a castle written with zeros is written back unchanged.
- `src/fen.rs`: `Color`, `CastlingRights`, `Board`, `FenError`, `parse_fen`
  and the text of a position; `fen_result` and `board_text` are the
  specifications.
- `src/fen_round_trip.rs`: writing a well-formed position and parsing it gives
  it back.
- `src/fen_canonical.rs`: what is written for a position is a FEN text in
  canonical form, and a text in canonical form is written back unchanged
  after parsing.
- `app/main.rs`: the command-line front end (argument handling and printing).
