//! A small chess move-generation engine.
//!
//! Given a piece (kind, colour, location), a board of fixed extent, and the
//! occupants of the other squares, the engine computes the piece's exact set
//! of legal destination squares: straight and diagonal rays for sliding
//! pieces, fixed offsets for knight and king, and forward steps with diagonal
//! captures for pawns, with blocking and capture rules applied uniformly.

pub mod board;
pub mod laws;
pub mod moves;
pub mod pieces;
