//! Castling rights as a 4-bit mask.

use vstd::prelude::*;

verus! {

pub const WHITE_KING_SIDE: u8 = 0b1000;

pub const WHITE_QUEEN_SIDE: u8 = 0b0100;

pub const BLACK_KING_SIDE: u8 = 0b0010;

pub const BLACK_QUEEN_SIDE: u8 = 0b0001;

/// The set of castling rights a position still allows, one bit per right.
#[derive(PartialEq, Eq, Structural, Clone, Copy, Debug)]
pub struct CastlingRights {
    bits: u8,
}

impl CastlingRights {
    /// The raw mask value.
    pub closed spec fn spec_bits(&self) -> u8 {
        self.bits
    }

    /// No castling rights at all.
    pub fn empty() -> (r: CastlingRights)
        ensures
            r.spec_bits() == 0,
    {
        CastlingRights { bits: 0 }
    }

    /// Adds the given right bits to the set.
    pub fn insert(&mut self, flag: u8)
        ensures
            final(self).spec_bits() == old(self).spec_bits() | flag,
    {
        self.bits = self.bits | flag;
    }

    /// The raw mask value.
    pub fn bits(&self) -> (r: u8)
        ensures
            r == self.spec_bits(),
    {
        self.bits
    }
}

} // verus!
