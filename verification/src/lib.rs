//! Bitboard move-generation core for a chess engine: occupancy-aware attack
//! formulas for sliding pieces, magic-number hashing into a shared attack
//! table, and a pseudo-legal move generator.

use vstd::prelude::*;

pub mod attacks;
pub mod castling_rights;
pub mod fen;
pub mod cmove;
pub mod piece;
pub mod position;
pub mod magic_numbers;
pub mod tables;
pub mod util;

verus! {

} // verus!
