//! Occupancy-aware attack formulas: hyperbola quintessence for sliding pieces
//! and fixed offset patterns for leapers (knight, king, pawn).

use vstd::prelude::*;

use crate::util::{
    bit64, mask_anti_diag, mask_diag, mask_file, mask_rank, rev64, spec_mask_anti_diag,
    spec_mask_diag, spec_mask_file, spec_mask_rank, spec_rev64, Bitboard, Color, FILE_A,
};

verus! {

/// Sliding attacks along the line `mask`, honoring the first blocker in each
/// direction: `(((o&m) - 2s) ^ rev(rev(o&m) - 2 rev(s))) & m`.
pub open spec fn spec_hyperbola(piece: u64, occupancy: u64, mask: u64) -> u64 {
    let om = occupancy & mask;
    let fwd = om.wrapping_sub(piece.wrapping_mul(2));
    let rev = spec_rev64(spec_rev64(om).wrapping_sub(spec_rev64(piece).wrapping_mul(2)));
    (fwd ^ rev) & mask
}

pub open spec fn spec_bishop_att(s: u64, occupancy: u64) -> u64 {
    spec_hyperbola(1u64 << s, occupancy, spec_mask_diag(s)) | spec_hyperbola(
        1u64 << s,
        occupancy,
        spec_mask_anti_diag(s),
    )
}

pub open spec fn spec_rook_att(s: u64, occupancy: u64) -> u64 {
    spec_hyperbola(1u64 << s, occupancy, spec_mask_file(s)) ^ spec_hyperbola(
        1u64 << s,
        occupancy,
        spec_mask_rank(s),
    )
}

pub open spec fn spec_pawn_att(s: u64, color: Color) -> u64 {
    let occ = 1u64 << s;
    if color == Color::White {
        ((occ << 9) & !spec_mask_file(0)) | ((occ << 7) & !spec_mask_file(63))
    } else {
        ((occ >> 9) & !spec_mask_file(63)) | ((occ >> 7) & !spec_mask_file(0))
    }
}

pub open spec fn spec_king_att(s: u64) -> u64 {
    let occ = 1u64 << s;
    let f = s % 8;
    let r = s / 8;
    (if f > 0 && r < 7 {
        occ << 7
    } else {
        0u64
    }) | (if r < 7 {
        occ << 8
    } else {
        0u64
    }) | (if r < 7 && f < 7 {
        occ << 9
    } else {
        0u64
    }) | (if f < 7 {
        occ << 1
    } else {
        0u64
    }) | (if f > 0 {
        occ >> 1
    } else {
        0u64
    }) | (if f < 7 && r > 0 {
        occ >> 7
    } else {
        0u64
    }) | (if r > 0 {
        occ >> 8
    } else {
        0u64
    }) | (if r > 0 && f > 0 {
        occ >> 9
    } else {
        0u64
    })
}

pub open spec fn spec_knight_att(s: u64) -> u64 {
    let occ = 1u64 << s;
    let f = s % 8;
    let r = s / 8;
    (if f > 0 && r < 6 {
        occ << 15
    } else {
        0u64
    }) | (if f < 7 && r < 6 {
        occ << 17
    } else {
        0u64
    }) | (if f > 1 && r < 7 {
        occ << 6
    } else {
        0u64
    }) | (if f < 6 && r < 7 {
        occ << 10
    } else {
        0u64
    }) | (if r > 0 && f < 6 {
        occ >> 6
    } else {
        0u64
    }) | (if r > 0 && f > 1 {
        occ >> 10
    } else {
        0u64
    }) | (if r > 1 && f < 7 {
        occ >> 15
    } else {
        0u64
    }) | (if r > 1 && f > 0 {
        occ >> 17
    } else {
        0u64
    })
}

/// A white pawn on `s` attacks the two diagonally-forward squares; a black
/// pawn the two diagonally-backward ones, never wrapping around a board edge.
pub broadcast proof fn lemma_pawn_att_bits(s: u64, color: Color, t: u64)
    requires
        s < 64,
    ensures
        #[trigger] bit64(spec_pawn_att(s, color), t) <==> t < 64 && (if color == Color::White {
            t / 8 == s / 8 + 1
        } else {
            t / 8 + 1 == s / 8
        }) && (t % 8 == s % 8 + 1 || t % 8 + 1 == s % 8),
{
    if color == Color::White {
        assert(bit64(
            ((1u64 << s) << 9) & !spec_mask_file(0) | ((1u64 << s) << 7) & !spec_mask_file(63),
            t,
        ) <==> t < 64 && t / 8 == s / 8 + 1 && (t % 8 == s % 8 + 1 || t % 8 + 1 == s % 8))
            by (bit_vector)
            requires
                s < 64,
        ;
    } else {
        assert(bit64(
            ((1u64 << s) >> 9) & !spec_mask_file(63) | ((1u64 << s) >> 7) & !spec_mask_file(0),
            t,
        ) <==> t < 64 && t / 8 + 1 == s / 8 && (t % 8 == s % 8 + 1 || t % 8 + 1 == s % 8))
            by (bit_vector)
            requires
                s < 64,
        ;
    }
}

/// A king attacks the up-to-eight neighbouring squares.
pub broadcast proof fn lemma_king_att_bits(s: u64, t: u64)
    by (bit_vector)
    requires
        s < 64,
    ensures
        #[trigger] bit64(spec_king_att(s), t) <==> t < 64 && t != s && (t / 8 <= s / 8 + 1 && s / 8
            <= t / 8 + 1) && (t % 8 <= s % 8 + 1 && s % 8 <= t % 8 + 1),
{
}

/// A knight attacks the up-to-eight squares one file and two ranks away, or
/// two files and one rank away.
pub broadcast proof fn lemma_knight_att_bits(s: u64, t: u64)
    by (bit_vector)
    requires
        s < 64,
    ensures
        #[trigger] bit64(spec_knight_att(s), t) <==> t < 64 && ((absdiff(t % 8, s % 8) == 1
            && absdiff(t / 8, s / 8) == 2) || (absdiff(t % 8, s % 8) == 2 && absdiff(
            t / 8,
            s / 8,
        ) == 1)),
{
}

/// Absolute difference.
pub open spec fn absdiff(a: u64, b: u64) -> u64 {
    if a >= b {
        (a - b) as u64
    } else {
        (b - a) as u64
    }
}

/// Algorithm to calculate sliding piece attacks with given occupancy.
/// Computes, along the line `mask`, every square reachable from the single
/// bit `piece` up to and including the first blocker in each direction.
pub fn hyperbola_quintessence(piece: Bitboard, occupancy: Bitboard, mask: Bitboard) -> (r: Bitboard)
    ensures
        r == spec_hyperbola(piece, occupancy, mask),
{
    let occupancy_mask = occupancy & mask;
    let forward = occupancy_mask.wrapping_sub(piece.wrapping_mul(2));
    let reverse = rev64(rev64(occupancy_mask).wrapping_sub(rev64(piece).wrapping_mul(2)));
    (forward ^ reverse) & mask
}

/// Diagonal and anti-diagonal sliding attacks from `square`.
pub fn bishop_att(square: u8, occupancy: Bitboard) -> (r: Bitboard)
    requires
        square < 64,
    ensures
        r == spec_bishop_att(square as u64, occupancy),
        forall|t: u64| #[trigger] bit64(r, t) <==> spec_bishop_reach(square as u64, occupancy, t),
{
    let piece = 1u64 << (square as u64);
    let r = hyperbola_quintessence(piece, occupancy, mask_diag(square)) | hyperbola_quintessence(
        piece,
        occupancy,
        mask_anti_diag(square),
    );
    proof {
        assert forall|t: u64|
            #[trigger] bit64(r, t) <==> spec_bishop_reach(square as u64, occupancy, t) by {
            lemma_bishop_att_reach(square as u64, occupancy, t);
        }
    }
    r
}

/// File and rank sliding attacks from `square`.
pub fn rook_att(square: u8, occupancy: Bitboard) -> (r: Bitboard)
    requires
        square < 64,
    ensures
        r == spec_rook_att(square as u64, occupancy),
        forall|t: u64| #[trigger] bit64(r, t) <==> spec_rook_reach(square as u64, occupancy, t),
{
    let piece = 1u64 << (square as u64);
    let r = hyperbola_quintessence(piece, occupancy, mask_file(square)) ^ hyperbola_quintessence(
        piece,
        occupancy,
        mask_rank(square),
    );
    proof {
        assert forall|t: u64|
            #[trigger] bit64(r, t) <==> spec_rook_reach(square as u64, occupancy, t) by {
            lemma_rook_att_reach(square as u64, occupancy, t);
        }
    }
    r
}

/// The single capture square diagonally toward the east, if any.
pub fn pawn_east_att(square: u8, color: Color) -> (r: Bitboard)
    requires
        square < 64,
    ensures
        r == (if color == Color::White {
            ((1u64 << square as u64) << 9) & !spec_mask_file(0)
        } else {
            ((1u64 << square as u64) >> 9) & !spec_mask_file(63)
        }),
{
    let occ = 1u64 << (square as u64);
    match color {
        Color::White => (occ << 9) & !(FILE_A << (0u64 % 8)),
        Color::Black => (occ >> 9) & !(FILE_A << (63u64 % 8)),
    }
}

/// The single capture square diagonally toward the west, if any.
pub fn pawn_west_att(square: u8, color: Color) -> (r: Bitboard)
    requires
        square < 64,
    ensures
        r == (if color == Color::White {
            ((1u64 << square as u64) << 7) & !spec_mask_file(63)
        } else {
            ((1u64 << square as u64) >> 7) & !spec_mask_file(0)
        }),
{
    let occ = 1u64 << (square as u64);
    match color {
        Color::White => (occ << 7) & !(FILE_A << (63u64 % 8)),
        Color::Black => (occ >> 7) & !(FILE_A << (0u64 % 8)),
    }
}

/// Both pawn capture squares for the given color.
pub fn pawn_att(square: u8, color: Color) -> (r: Bitboard)
    requires
        square < 64,
    ensures
        r == spec_pawn_att(square as u64, color),
        forall|t: u64|
            #[trigger] bit64(r, t) <==> t < 64 && (if color == Color::White {
                t / 8 == square as u64 / 8 + 1
            } else {
                t / 8 + 1 == square as u64 / 8
            }) && (t % 8 == square as u64 % 8 + 1 || t % 8 + 1 == square as u64 % 8),
{
    let r = pawn_east_att(square, color) | pawn_west_att(square, color);
    proof {
        assert forall|t: u64|
            #[trigger] bit64(r, t) <==> t < 64 && (if color == Color::White {
                t / 8 == square as u64 / 8 + 1
            } else {
                t / 8 + 1 == square as u64 / 8
            }) && (t % 8 == square as u64 % 8 + 1 || t % 8 + 1 == square as u64 % 8) by {
            lemma_pawn_att_bits(square as u64, color, t);
        }
    }
    r
}

/// King attacks from `square`.
pub fn king_att(square: u8) -> (r: Bitboard)
    requires
        square < 64,
    ensures
        r == spec_king_att(square as u64),
        forall|t: u64|
            #[trigger] bit64(r, t) <==> t < 64 && t != square as u64 && (t / 8 <= square as u64 / 8
                + 1 && square as u64 / 8 <= t / 8 + 1) && (t % 8 <= square as u64 % 8 + 1 && square
                as u64 % 8 <= t % 8 + 1),
{
    let s = square as u64;
    let occ = 1u64 << s;
    let file = s % 8;
    let rank = s / 8;

    let r = (if file > 0 && rank < 7 {
        occ << 7
    } else {
        0u64
    }) | (if rank < 7 {
        occ << 8
    } else {
        0u64
    }) | (if rank < 7 && file < 7 {
        occ << 9
    } else {
        0u64
    }) | (if file < 7 {
        occ << 1
    } else {
        0u64
    }) | (if file > 0 {
        occ >> 1
    } else {
        0u64
    }) | (if file < 7 && rank > 0 {
        occ >> 7
    } else {
        0u64
    }) | (if rank > 0 {
        occ >> 8
    } else {
        0u64
    }) | (if rank > 0 && file > 0 {
        occ >> 9
    } else {
        0u64
    });
    proof {
        assert forall|t: u64|
            #[trigger] bit64(r, t) <==> t < 64 && t != s && (t / 8 <= s / 8 + 1 && s / 8 <= t / 8
                + 1) && (t % 8 <= s % 8 + 1 && s % 8 <= t % 8 + 1) by {
            lemma_king_att_bits(s, t);
        }
    }
    r
}

/// Knight attacks from `square`.
pub fn knight_att(square: u8) -> (r: Bitboard)
    requires
        square < 64,
    ensures
        r == spec_knight_att(square as u64),
        forall|t: u64|
            #[trigger] bit64(r, t) <==> t < 64 && ((absdiff(t % 8, square as u64 % 8) == 1
                && absdiff(t / 8, square as u64 / 8) == 2) || (absdiff(t % 8, square as u64 % 8)
                == 2 && absdiff(t / 8, square as u64 / 8) == 1)),
{
    let s = square as u64;
    let occ = 1u64 << s;
    let file = s % 8;
    let rank = s / 8;

    let r = (if file > 0 && rank < 6 {
        occ << 15
    } else {
        0u64
    }) | (if file < 7 && rank < 6 {
        occ << 17
    } else {
        0u64
    }) | (if file > 1 && rank < 7 {
        occ << 6
    } else {
        0u64
    }) | (if file < 6 && rank < 7 {
        occ << 10
    } else {
        0u64
    }) | (if rank > 0 && file < 6 {
        occ >> 6
    } else {
        0u64
    }) | (if rank > 0 && file > 1 {
        occ >> 10
    } else {
        0u64
    }) | (if rank > 1 && file < 7 {
        occ >> 15
    } else {
        0u64
    }) | (if rank > 1 && file > 0 {
        occ >> 17
    } else {
        0u64
    });
    proof {
        assert forall|t: u64|
            #[trigger] bit64(r, t) <==> t < 64 && ((absdiff(t % 8, s % 8) == 1 && absdiff(
                t / 8,
                s / 8,
            ) == 2) || (absdiff(t % 8, s % 8) == 2 && absdiff(t / 8, s / 8) == 1)) by {
            lemma_knight_att_bits(s, t);
        }
    }
    r
}

} // verus!

use crate::util::{
    lemma_bit64_and, lemma_bit64_not, lemma_bit64_or, lemma_bit64_single, lemma_bit64_xor,
    lemma_bit64_zero, lemma_mask_anti_diag_bits, lemma_mask_diag_bits, lemma_mask_file_bits,
    lemma_mask_rank_bits, lemma_nonzero_bit,
};

verus! {

/// Strictly-between mask: bits with index in the open interval `(a, b)`.
pub open spec fn spec_between(a: u64, b: u64) -> u64 {
    ((1u64 << b).wrapping_sub(1u64 << a)) & !(1u64 << a)
}

proof fn lemma_between_bits(a: u64, b: u64, u: u64)
    by (bit_vector)
    requires
        a < b < 64,
    ensures
        bit64(spec_between(a, b), u) <==> a < u < b,
{
}

#[verifier::rlimit(60)]
proof fn lemma_hq_file_mask(s: u64, o: u64, t: u64)
    by (bit_vector)
    requires
        s < 64,
        t < 64,
    ensures
        bit64(spec_hyperbola(1u64 << s, o, spec_mask_file(s)), t) <==> (t != s && t % 8 == s % 8
            && o & spec_mask_file(s) & (if s < t {
            spec_between(s, t)
        } else {
            spec_between(t, s)
        }) == 0),
{
}

#[verifier::rlimit(60)]
proof fn lemma_hq_rank_mask(s: u64, o: u64, t: u64)
    by (bit_vector)
    requires
        s < 64,
        t < 64,
    ensures
        bit64(spec_hyperbola(1u64 << s, o, spec_mask_rank(s)), t) <==> (t != s && t / 8 == s / 8
            && o & spec_mask_rank(s) & (if s < t {
            spec_between(s, t)
        } else {
            spec_between(t, s)
        }) == 0),
{
}

#[verifier::rlimit(60)]
proof fn lemma_hq_diag_mask(s: u64, o: u64, t: u64)
    by (bit_vector)
    requires
        s < 64,
        t < 64,
    ensures
        bit64(spec_hyperbola(1u64 << s, o, spec_mask_diag(s)), t) <==> (t != s && t / 8 - t % 8 == s
            / 8 - s % 8 && o & spec_mask_diag(s) & (if s < t {
            spec_between(s, t)
        } else {
            spec_between(t, s)
        }) == 0),
{
}

#[verifier::rlimit(60)]
proof fn lemma_hq_anti_diag_mask(s: u64, o: u64, t: u64)
    by (bit_vector)
    requires
        s < 64,
        t < 64,
    ensures
        bit64(spec_hyperbola(1u64 << s, o, spec_mask_anti_diag(s)), t) <==> (t != s && t / 8 + t % 8
            == s / 8 + s % 8 && o & spec_mask_anti_diag(s) & (if s < t {
            spec_between(s, t)
        } else {
            spec_between(t, s)
        }) == 0),
{
}

/// No occupied square of `o` lies strictly between `s` and `t` on their
/// common file.
pub open spec fn spec_clear_file(o: u64, s: u64, t: u64) -> bool {
    forall|u: u64|
        u < 64 && u % 8 == s % 8 && (if s < t {
            s < u < t
        } else {
            t < u < s
        }) ==> !#[trigger] bit64(o, u)
}

/// No occupied square of `o` lies strictly between `s` and `t` on their
/// common rank.
pub open spec fn spec_clear_rank(o: u64, s: u64, t: u64) -> bool {
    forall|u: u64|
        u < 64 && u / 8 == s / 8 && (if s < t {
            s < u < t
        } else {
            t < u < s
        }) ==> !#[trigger] bit64(o, u)
}

/// No occupied square of `o` lies strictly between `s` and `t` on their
/// common diagonal.
pub open spec fn spec_clear_diag(o: u64, s: u64, t: u64) -> bool {
    forall|u: u64|
        u < 64 && u / 8 - u % 8 == s / 8 - s % 8 && (if s < t {
            s < u < t
        } else {
            t < u < s
        }) ==> !#[trigger] bit64(o, u)
}

/// No occupied square of `o` lies strictly between `s` and `t` on their
/// common anti-diagonal.
pub open spec fn spec_clear_anti_diag(o: u64, s: u64, t: u64) -> bool {
    forall|u: u64|
        u < 64 && u / 8 + u % 8 == s / 8 + s % 8 && (if s < t {
            s < u < t
        } else {
            t < u < s
        }) ==> !#[trigger] bit64(o, u)
}

/// `t` is reachable from `s` by single steps along one of the four orthogonal
/// directions, stopping at (and including) the first occupied square.
pub open spec fn spec_rook_reach(s: u64, o: u64, t: u64) -> bool {
    t < 64 && t != s && ((t % 8 == s % 8 && spec_clear_file(o, s, t)) || (t / 8 == s / 8
        && spec_clear_rank(o, s, t)))
}

/// `t` is reachable from `s` by single steps along one of the four diagonal
/// directions, stopping at (and including) the first occupied square.
pub open spec fn spec_bishop_reach(s: u64, o: u64, t: u64) -> bool {
    t < 64 && t != s && ((t / 8 - t % 8 == s / 8 - s % 8 && spec_clear_diag(o, s, t)) || (t / 8 + t
        % 8 == s / 8 + s % 8 && spec_clear_anti_diag(o, s, t)))
}

proof fn lemma_hq_file_reach(s: u64, o: u64, t: u64)
    requires
        s < 64,
        t < 64,
    ensures
        bit64(spec_hyperbola(1u64 << s, o, spec_mask_file(s)), t) <==> (t != s && t % 8 == s % 8
            && spec_clear_file(o, s, t)),
{
    lemma_hq_file_mask(s, o, t);
    if t != s && t % 8 == s % 8 {
        let lo = if s < t {
            s
        } else {
            t
        };
        let hi = if s < t {
            t
        } else {
            s
        };
        let y = o & spec_mask_file(s) & spec_between(lo, hi);
        if y == 0 {
            assert forall|u: u64|
                u < 64 && u % 8 == s % 8 && (if s < t {
                    s < u < t
                } else {
                    t < u < s
                }) implies !bit64(o, u) by {
                lemma_mask_file_bits(s, u);
                lemma_between_bits(lo, hi, u);
                lemma_bit64_and(o & spec_mask_file(s), spec_between(lo, hi), u);
                lemma_bit64_and(o, spec_mask_file(s), u);
                lemma_bit64_zero(u);
            }
        } else {
            lemma_nonzero_bit(y);
            let u = choose|u: u64| #[trigger] bit64(y, u);
            lemma_bit64_and(o & spec_mask_file(s), spec_between(lo, hi), u);
            lemma_bit64_and(o, spec_mask_file(s), u);
            lemma_mask_file_bits(s, u);
            lemma_between_bits(lo, hi, u);
            assert(!spec_clear_file(o, s, t));
        }
    }
}

proof fn lemma_hq_rank_reach(s: u64, o: u64, t: u64)
    requires
        s < 64,
        t < 64,
    ensures
        bit64(spec_hyperbola(1u64 << s, o, spec_mask_rank(s)), t) <==> (t != s && t / 8 == s / 8
            && spec_clear_rank(o, s, t)),
{
    lemma_hq_rank_mask(s, o, t);
    if t != s && t / 8 == s / 8 {
        let lo = if s < t {
            s
        } else {
            t
        };
        let hi = if s < t {
            t
        } else {
            s
        };
        let y = o & spec_mask_rank(s) & spec_between(lo, hi);
        if y == 0 {
            assert forall|u: u64|
                u < 64 && u / 8 == s / 8 && (if s < t {
                    s < u < t
                } else {
                    t < u < s
                }) implies !bit64(o, u) by {
                lemma_mask_rank_bits(s, u);
                lemma_between_bits(lo, hi, u);
                lemma_bit64_and(o & spec_mask_rank(s), spec_between(lo, hi), u);
                lemma_bit64_and(o, spec_mask_rank(s), u);
                lemma_bit64_zero(u);
            }
        } else {
            lemma_nonzero_bit(y);
            let u = choose|u: u64| #[trigger] bit64(y, u);
            lemma_bit64_and(o & spec_mask_rank(s), spec_between(lo, hi), u);
            lemma_bit64_and(o, spec_mask_rank(s), u);
            lemma_mask_rank_bits(s, u);
            lemma_between_bits(lo, hi, u);
            assert(!spec_clear_rank(o, s, t));
        }
    }
}

proof fn lemma_hq_diag_reach(s: u64, o: u64, t: u64)
    requires
        s < 64,
        t < 64,
    ensures
        bit64(spec_hyperbola(1u64 << s, o, spec_mask_diag(s)), t) <==> (t != s && t / 8 - t % 8 == s
            / 8 - s % 8 && spec_clear_diag(o, s, t)),
{
    lemma_hq_diag_mask(s, o, t);
    if t != s && t / 8 - t % 8 == s / 8 - s % 8 {
        let lo = if s < t {
            s
        } else {
            t
        };
        let hi = if s < t {
            t
        } else {
            s
        };
        let y = o & spec_mask_diag(s) & spec_between(lo, hi);
        if y == 0 {
            assert forall|u: u64|
                u < 64 && u / 8 - u % 8 == s / 8 - s % 8 && (if s < t {
                    s < u < t
                } else {
                    t < u < s
                }) implies !bit64(o, u) by {
                lemma_mask_diag_bits(s, u);
                lemma_between_bits(lo, hi, u);
                lemma_bit64_and(o & spec_mask_diag(s), spec_between(lo, hi), u);
                lemma_bit64_and(o, spec_mask_diag(s), u);
                lemma_bit64_zero(u);
            }
        } else {
            lemma_nonzero_bit(y);
            let u = choose|u: u64| #[trigger] bit64(y, u);
            lemma_bit64_and(o & spec_mask_diag(s), spec_between(lo, hi), u);
            lemma_bit64_and(o, spec_mask_diag(s), u);
            lemma_mask_diag_bits(s, u);
            lemma_between_bits(lo, hi, u);
            assert(!spec_clear_diag(o, s, t));
        }
    }
}

proof fn lemma_hq_anti_diag_reach(s: u64, o: u64, t: u64)
    requires
        s < 64,
        t < 64,
    ensures
        bit64(spec_hyperbola(1u64 << s, o, spec_mask_anti_diag(s)), t) <==> (t != s && t / 8 + t % 8
            == s / 8 + s % 8 && spec_clear_anti_diag(o, s, t)),
{
    lemma_hq_anti_diag_mask(s, o, t);
    if t != s && t / 8 + t % 8 == s / 8 + s % 8 {
        let lo = if s < t {
            s
        } else {
            t
        };
        let hi = if s < t {
            t
        } else {
            s
        };
        let y = o & spec_mask_anti_diag(s) & spec_between(lo, hi);
        if y == 0 {
            assert forall|u: u64|
                u < 64 && u / 8 + u % 8 == s / 8 + s % 8 && (if s < t {
                    s < u < t
                } else {
                    t < u < s
                }) implies !bit64(o, u) by {
                lemma_mask_anti_diag_bits(s, u);
                lemma_between_bits(lo, hi, u);
                lemma_bit64_and(o & spec_mask_anti_diag(s), spec_between(lo, hi), u);
                lemma_bit64_and(o, spec_mask_anti_diag(s), u);
                lemma_bit64_zero(u);
            }
        } else {
            lemma_nonzero_bit(y);
            let u = choose|u: u64| #[trigger] bit64(y, u);
            lemma_bit64_and(o & spec_mask_anti_diag(s), spec_between(lo, hi), u);
            lemma_bit64_and(o, spec_mask_anti_diag(s), u);
            lemma_mask_anti_diag_bits(s, u);
            lemma_between_bits(lo, hi, u);
            assert(!spec_clear_anti_diag(o, s, t));
        }
    }
}

/// The rook attack formula computes exactly the squares reachable by stepping
/// along each of the four orthogonal directions from `s`, stopping at and
/// including the first occupied square.
pub broadcast proof fn lemma_rook_att_reach(s: u64, o: u64, t: u64)
    requires
        s < 64,
    ensures
        #[trigger] bit64(spec_rook_att(s, o), t) <==> spec_rook_reach(s, o, t),
{
    if t < 64 {
        lemma_hq_file_reach(s, o, t);
        lemma_hq_rank_reach(s, o, t);
        lemma_bit64_xor(
            spec_hyperbola(1u64 << s, o, spec_mask_file(s)),
            spec_hyperbola(1u64 << s, o, spec_mask_rank(s)),
            t,
        );
        if t % 8 == s % 8 && t / 8 == s / 8 {
            assert(t == 8 * (t / 8) + t % 8 && s == 8 * (s / 8) + s % 8);
        }
    }
}

/// The bishop attack formula computes exactly the squares reachable by
/// stepping along each of the four diagonal directions from `s`, stopping at
/// and including the first occupied square.
pub broadcast proof fn lemma_bishop_att_reach(s: u64, o: u64, t: u64)
    requires
        s < 64,
    ensures
        #[trigger] bit64(spec_bishop_att(s, o), t) <==> spec_bishop_reach(s, o, t),
{
    if t < 64 {
        lemma_hq_diag_reach(s, o, t);
        lemma_hq_anti_diag_reach(s, o, t);
        lemma_bit64_or(
            spec_hyperbola(1u64 << s, o, spec_mask_diag(s)),
            spec_hyperbola(1u64 << s, o, spec_mask_anti_diag(s)),
            t,
        );
        if t / 8 - t % 8 == s / 8 - s % 8 && t / 8 + t % 8 == s / 8 + s % 8 {
            assert(t == 8 * (t / 8) + t % 8 && s == 8 * (s / 8) + s % 8);
        }
    }
}

} // verus!
