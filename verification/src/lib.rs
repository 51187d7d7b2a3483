//! Parsing of chess notation: standard algebraic notation (SAN) move text
//! and Forsyth-Edwards Notation (FEN) positions, with contracts that state
//! exactly what each parser accepts and produces.


pub mod conventions;
pub mod fen;
pub mod fen_canonical;
pub mod fen_round_trip;
pub mod san;
pub mod text;


pub use fen::{parse_fen, Board, CastlingRights, Color, FenError};
pub use san::{parse_san, CastleSide, ParseError, Piece, SanMove, Square};
