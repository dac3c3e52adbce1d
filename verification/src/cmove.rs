//! A move as an immutable packed triple: origin square, destination square,
//! and one of sixteen flag variants.

use vstd::prelude::*;

verus! {

/// The sixteen move flag variants. Castling and en-passant flags exist for
/// completeness but the generator never emits them.
#[allow(non_camel_case_types)]
#[derive(PartialEq, Eq, Structural, Clone, Copy, Debug)]
pub enum MoveFlags {
    QUIET,
    DOUBLE_PAWN_PUSH,
    KING_CASTLE,
    QUEEN_CASTLE,
    CAPTURE,
    EP_CAPTURE,
    KNIGHT_PROM,
    BISHOP_PROM,
    ROOK_PROM,
    QUEEN_PROM,
    KNIGHT_PROM_CAPTURE,
    BISHOP_PROM_CAPTURE,
    ROOK_PROM_CAPTURE,
    QUEEN_PROM_CAPTURE,
}

/// The 4-bit encoding of each flag variant.
pub open spec fn spec_flag_bits(f: MoveFlags) -> u16 {
    match f {
        MoveFlags::QUIET => 0,
        MoveFlags::DOUBLE_PAWN_PUSH => 0b0001,
        MoveFlags::KING_CASTLE => 0b0010,
        MoveFlags::QUEEN_CASTLE => 0b0011,
        MoveFlags::CAPTURE => 0b0100,
        MoveFlags::EP_CAPTURE => 0b0101,
        MoveFlags::KNIGHT_PROM => 0b1000,
        MoveFlags::BISHOP_PROM => 0b1001,
        MoveFlags::ROOK_PROM => 0b1010,
        MoveFlags::QUEEN_PROM => 0b1011,
        MoveFlags::KNIGHT_PROM_CAPTURE => 0b1100,
        MoveFlags::BISHOP_PROM_CAPTURE => 0b1101,
        MoveFlags::ROOK_PROM_CAPTURE => 0b1110,
        MoveFlags::QUEEN_PROM_CAPTURE => 0b1111,
    }
}

impl MoveFlags {
    /// The 4-bit value of this flag.
    pub fn bits(&self) -> (r: u16)
        ensures
            r == spec_flag_bits(*self),
    {
        match self {
            MoveFlags::QUIET => 0,
            MoveFlags::DOUBLE_PAWN_PUSH => 0b0001,
            MoveFlags::KING_CASTLE => 0b0010,
            MoveFlags::QUEEN_CASTLE => 0b0011,
            MoveFlags::CAPTURE => 0b0100,
            MoveFlags::EP_CAPTURE => 0b0101,
            MoveFlags::KNIGHT_PROM => 0b1000,
            MoveFlags::BISHOP_PROM => 0b1001,
            MoveFlags::ROOK_PROM => 0b1010,
            MoveFlags::QUEEN_PROM => 0b1011,
            MoveFlags::KNIGHT_PROM_CAPTURE => 0b1100,
            MoveFlags::BISHOP_PROM_CAPTURE => 0b1101,
            MoveFlags::ROOK_PROM_CAPTURE => 0b1110,
            MoveFlags::QUEEN_PROM_CAPTURE => 0b1111,
        }
    }
}

/// A move packed into 16 bits: `from | to << 6 | flags << 12`.
#[derive(Debug, PartialEq, Eq, Structural, Clone, Copy)]
pub struct Move(u16);

proof fn lemma_move_pack(from: u16, to: u16, fl: u16)
    by (bit_vector)
    requires
        from < 64,
        to < 64,
        fl < 16,
    ensures
        (from | (to << 6u16) | (fl << 12u16)) & 0x3f == from,
        ((from | (to << 6u16) | (fl << 12u16)) >> 6u16) & 0x3f == to,
        ((from | (to << 6u16) | (fl << 12u16)) >> 12u16) & 0xf == fl,
{
}

impl Move {
    /// Origin square encoded in the low 6 bits.
    pub closed spec fn spec_from(&self) -> u16 {
        self.0 & 0x3f
    }

    /// Destination square encoded in the middle 6 bits.
    pub closed spec fn spec_to(&self) -> u16 {
        (self.0 >> 6u16) & 0x3f
    }

    /// Flag bits encoded in the top 4 bits.
    pub closed spec fn spec_flags(&self) -> u16 {
        (self.0 >> 12u16) & 0xf
    }

    /// Packs origin, destination and flag into one move value.
    pub fn new(from: u16, to: u16, flags: MoveFlags) -> (m: Move)
        requires
            from < 64,
            to < 64,
        ensures
            m.spec_from() == from,
            m.spec_to() == to,
            m.spec_flags() == spec_flag_bits(flags),
    {
        let fl = flags.bits();
        let m = Move(from | (to << 6u16) | (fl << 12u16));
        proof {
            lemma_move_pack(from, to, fl);
        }
        m
    }

    /// The origin square of the move.
    pub fn get_from(&self) -> (r: u8)
        ensures
            r == self.spec_from(),
            r < 64,
    {
        proof {
            let x = self.0;
            assert(x & 0x3f < 64 && (x & 0x3f) & 0xff == x & 0x3f) by (bit_vector);
        }
        (self.0 & 0x3f) as u8
    }

    /// The destination square of the move.
    pub fn get_to(&self) -> (r: u8)
        ensures
            r == self.spec_to(),
            r < 64,
    {
        proof {
            let x = self.0;
            assert((x >> 6u16) & 0x3f < 64 && ((x >> 6u16) & 0x3f) & 0xff == (x >> 6u16)
                & 0x3f) by (bit_vector);
        }
        ((self.0 >> 6u16) & 0x3f) as u8
    }

    /// The flag bits of the move.
    pub fn get_flags(&self) -> (r: u8)
        ensures
            r == self.spec_flags(),
            r < 16,
    {
        proof {
            let x = self.0;
            assert((x >> 12u16) & 0xf < 16 && ((x >> 12u16) & 0xf) & 0xff == (x >> 12u16)
                & 0xf) by (bit_vector);
        }
        ((self.0 >> 12u16) & 0xf) as u8
    }
}

} // verus!
