//! Square/file/rank/diagonal arithmetic and bit-iteration primitives.
//!
//! A [`Bitboard`] is a 64-bit mask with one bit per board square, indexed
//! 0 = a1 .. 63 = h8; `file = index % 8`, `rank = index / 8`.

use vstd::prelude::*;

verus! {

pub type Bitboard = u64;

/// Bitboard of the first rank (rank index 0).
pub const RANK_ONE: u64 = 0xff;

/// Bitboard of the a-file (file index 0).
pub const FILE_A: u64 = 0x0101010101010101;

/// Bitboard of the a1-h8 diagonal.
pub const MAIN_DIAG: u64 = 0x8040201008040201;

/// Bitboard of the h1-a8 anti-diagonal.
pub const ANTI_DIAG: u64 = 0x0102040810204080;

#[derive(PartialEq, Eq, Structural, Clone, Copy, Debug)]
pub enum Color {
    White,
    Black,
}

/// True iff bit `i` of `bb` is set (false for any `i` off the board).
pub open spec fn bit64(bb: u64, i: u64) -> bool {
    i < 64 && (bb >> i) & 1 == 1
}

pub open spec fn spec_mask_rank(s: u64) -> u64 {
    0xffu64 << ((s / 8 * 8) as u64)
}

pub open spec fn spec_mask_file(s: u64) -> u64 {
    0x0101010101010101u64 << ((s % 8) as u64)
}

pub open spec fn spec_mask_diag(s: u64) -> u64 {
    if s / 8 >= s % 8 {
        0x8040201008040201u64 << (((s / 8 - s % 8) * 8) as u64)
    } else {
        0x8040201008040201u64 >> (((s % 8 - s / 8) * 8) as u64)
    }
}

pub open spec fn spec_mask_anti_diag(s: u64) -> u64 {
    if s / 8 + s % 8 >= 7 {
        0x0102040810204080u64 << (((s / 8 + s % 8 - 7) * 8) as u64)
    } else {
        0x0102040810204080u64 >> (((7 - s / 8 - s % 8) * 8) as u64)
    }
}

pub open spec fn spec_edges(s: u64) -> u64 {
    ((spec_mask_file(0) | spec_mask_file(63)) & !spec_mask_file(s)) | ((spec_mask_rank(0)
        | spec_mask_rank(63)) & !spec_mask_rank(s))
}

pub open spec fn spec_bb_from_square(s: u64) -> u64 {
    if s < 64 {
        1u64 << s
    } else {
        0u64
    }
}

pub broadcast proof fn lemma_bit64_or(a: u64, b: u64, t: u64)
    by (bit_vector)
    ensures
        #[trigger] bit64(a | b, t) <==> bit64(a, t) || bit64(b, t),
{
}

pub broadcast proof fn lemma_bit64_and(a: u64, b: u64, t: u64)
    by (bit_vector)
    ensures
        #[trigger] bit64(a & b, t) <==> bit64(a, t) && bit64(b, t),
{
}

pub broadcast proof fn lemma_bit64_xor(a: u64, b: u64, t: u64)
    by (bit_vector)
    ensures
        #[trigger] bit64(a ^ b, t) <==> (bit64(a, t) != bit64(b, t)),
{
}

pub broadcast proof fn lemma_bit64_not(a: u64, t: u64)
    by (bit_vector)
    ensures
        #[trigger] bit64(!a, t) <==> t < 64 && !bit64(a, t),
{
}

pub broadcast proof fn lemma_bit64_single(s: u64, t: u64)
    by (bit_vector)
    requires
        s < 64,
    ensures
        #[trigger] bit64(1u64 << s, t) <==> t == s,
{
}

pub broadcast proof fn lemma_bit64_zero(t: u64)
    by (bit_vector)
    ensures
        !#[trigger] bit64(0u64, t),
{
}

pub proof fn lemma_mask_rank_bits(s: u64, t: u64)
    by (bit_vector)
    requires
        s < 64,
    ensures
        bit64(spec_mask_rank(s), t) <==> t < 64 && t / 8 == s / 8,
{
}

pub proof fn lemma_mask_file_bits(s: u64, t: u64)
    by (bit_vector)
    requires
        s < 64,
    ensures
        bit64(spec_mask_file(s), t) <==> t < 64 && t % 8 == s % 8,
{
}

pub proof fn lemma_mask_diag_bits(s: u64, t: u64)
    by (bit_vector)
    requires
        s < 64,
    ensures
        bit64(spec_mask_diag(s), t) <==> t < 64 && t / 8 - t % 8 == s / 8 - s % 8,
{
}

pub proof fn lemma_mask_anti_diag_bits(s: u64, t: u64)
    by (bit_vector)
    requires
        s < 64,
    ensures
        bit64(spec_mask_anti_diag(s), t) <==> t < 64 && t / 8 + t % 8 == s / 8 + s % 8,
{
}

pub proof fn lemma_edges_bits(s: u64, t: u64)
    by (bit_vector)
    requires
        s < 64,
    ensures
        bit64(spec_edges(s), t) <==> t < 64 && (((t % 8 == 0 || t % 8 == 7) && t % 8 != s % 8) || ((
        t / 8 == 0 || t / 8 == 7) && t / 8 != s / 8)),
{
}

/// Translate chess board coordinates to a square index (0 - 63)
pub fn coord_to_idx(file: u8, rank: u8) -> (idx: u8)
    requires
        file < 8,
        rank < 8,
    ensures
        idx == 8 * rank + file,
        idx < 64,
{
    8 * rank + file
}

/// Translate the index of a square to the corresponding file index (0-7)
pub fn sq_to_file(square: u8) -> (file: u8)
    ensures
        file == square % 8,
{
    square % 8
}

/// Translate the index of a square to the corresponding rank index (0-7)
pub fn sq_to_rank(square: u8) -> (rank: u8)
    ensures
        rank == square / 8,
{
    square / 8
}

/// Masks the rank of a given square
pub fn mask_rank(square: u8) -> (r: Bitboard)
    requires
        square < 64,
    ensures
        r == spec_mask_rank(square as u64),
        forall|t: u64| #[trigger] bit64(r, t) <==> t < 64 && t / 8 == square as u64 / 8,
{
    let s = square as u64;
    let r = RANK_ONE << (s / 8 * 8);
    proof {
        assert forall|t: u64| #[trigger] bit64(r, t) <==> t < 64 && t / 8 == s / 8 by {
            lemma_mask_rank_bits(s, t);
        }
    }
    r
}

/// Masks the file of a given square
pub fn mask_file(square: u8) -> (r: Bitboard)
    requires
        square < 64,
    ensures
        r == spec_mask_file(square as u64),
        forall|t: u64| #[trigger] bit64(r, t) <==> t < 64 && t % 8 == square as u64 % 8,
{
    let s = square as u64;
    let r = FILE_A << (s % 8);
    proof {
        assert forall|t: u64| #[trigger] bit64(r, t) <==> t < 64 && t % 8 == s % 8 by {
            lemma_mask_file_bits(s, t);
        }
    }
    r
}

/// Masks the diagonal of a given square
pub fn mask_diag(square: u8) -> (r: Bitboard)
    requires
        square < 64,
    ensures
        r == spec_mask_diag(square as u64),
        forall|t: u64| #[trigger] bit64(r, t) <==> t < 64 && t / 8 - t % 8 == square as u64 / 8
            - square as u64 % 8,
{
    let s = square as u64;
    let rank = s / 8;
    let file = s % 8;
    let r = if rank >= file {
        MAIN_DIAG << ((rank - file) * 8)
    } else {
        MAIN_DIAG >> ((file - rank) * 8)
    };
    proof {
        assert forall|t: u64| #[trigger] bit64(r, t) <==> t < 64 && t / 8 - t % 8 == s / 8 - s
            % 8 by {
            lemma_mask_diag_bits(s, t);
        }
    }
    r
}

/// Masks the anti-diagonal of a given square
pub fn mask_anti_diag(square: u8) -> (r: Bitboard)
    requires
        square < 64,
    ensures
        r == spec_mask_anti_diag(square as u64),
        forall|t: u64| #[trigger] bit64(r, t) <==> t < 64 && t / 8 + t % 8 == square as u64 / 8
            + square as u64 % 8,
{
    let s = square as u64;
    let rank = s / 8;
    let file = s % 8;
    let r = if rank + file >= 7 {
        ANTI_DIAG << ((rank + file - 7) * 8)
    } else {
        ANTI_DIAG >> ((7 - rank - file) * 8)
    };
    proof {
        assert forall|t: u64| #[trigger] bit64(r, t) <==> t < 64 && t / 8 + t % 8 == s / 8 + s
            % 8 by {
            lemma_mask_anti_diag_bits(s, t);
        }
    }
    r
}

/// Returns a Bitboard that represents the edges of the board, excluding the
/// rank and file of the given square.
pub fn edges(square: u8) -> (r: Bitboard)
    requires
        square < 64,
    ensures
        r == spec_edges(square as u64),
        forall|t: u64|
            #[trigger] bit64(r, t) <==> t < 64 && (((t % 8 == 0 || t % 8 == 7) && t % 8 != square
                as u64 % 8) || ((t / 8 == 0 || t / 8 == 7) && t / 8 != square as u64 / 8)),
{
    let s = square as u64;
    let file_s = FILE_A << (s % 8);
    let rank_s = RANK_ONE << (s / 8 * 8);
    let r = ((FILE_A | (FILE_A << 7)) & !file_s) | ((RANK_ONE | (RANK_ONE << 56)) & !rank_s);
    proof {
        assert(r == spec_edges(s)) by (bit_vector)
            requires
                file_s == FILE_A << (s % 8),
                rank_s == RANK_ONE << ((s / 8 * 8) as u64),
                r == ((FILE_A | (FILE_A << 7)) & !file_s) | ((RANK_ONE | (RANK_ONE << 56))
                    & !rank_s),
        ;
        assert forall|t: u64|
            #[trigger] bit64(r, t) <==> t < 64 && (((t % 8 == 0 || t % 8 == 7) && t % 8 != s % 8)
                || ((t / 8 == 0 || t / 8 == 7) && t / 8 != s / 8)) by {
            lemma_edges_bits(s, t);
        }
    }
    r
}

/// Returns the bitboard mask of a rank on the board relative to the given color
pub fn relative_rank(rank: u8, color: Color) -> (r: Bitboard)
    requires
        rank < 8,
    ensures
        r == spec_mask_rank(
            if color == Color::White {
                (8 * rank) as u64
            } else {
                (8 * (7 - rank as u64)) as u64
            },
        ),
        forall|t: u64|
            #[trigger] bit64(r, t) <==> t < 64 && t / 8 == (if color == Color::White {
                rank as u64
            } else {
                (7 - rank as u64) as u64
            }),
{
    let k: u64 = if color == Color::White {
        rank as u64
    } else {
        7 - rank as u64
    };
    let r = RANK_ONE << (k * 8);
    proof {
        assert(r == spec_mask_rank((8 * k) as u64)) by (bit_vector)
            requires
                k < 8,
                r == RANK_ONE << ((k * 8) as u64),
        ;
        assert forall|t: u64| #[trigger] bit64(r, t) <==> t < 64 && t / 8 == k by {
            lemma_mask_rank_bits((8 * k) as u64, t);
        }
    }
    r
}

/// Creates a bitboard from a square index
pub fn bb_from_square(square: u8) -> (r: Bitboard)
    ensures
        r == spec_bb_from_square(square as u64),
        forall|t: u64| #[trigger] bit64(r, t) <==> square < 64 && t == square as u64,
{
    let r = if square < 64 {
        1u64 << (square as u64)
    } else {
        0u64
    };
    proof {
        broadcast use lemma_bit64_zero;

        if square < 64 {
            assert forall|t: u64| #[trigger] bit64(r, t) <==> t == square as u64 by {
                lemma_bit64_single(square as u64, t);
            }
        }
    }
    r
}

/// Unsets the bit at the given index
pub fn pop_bit(n: &mut u64, idx: u8)
    requires
        idx < 64,
    ensures
        *final(n) == *old(n) & !(1u64 << (idx as u64)),
        forall|t: u64| #[trigger] bit64(*final(n), t) <==> bit64(*old(n), t) && t != idx as u64,
{
    *n &= !(1u64 << (idx as u64));
    proof {
        broadcast use lemma_bit64_and, lemma_bit64_not;

        assert forall|t: u64| #[trigger] bit64(*n, t) <==> bit64(*old(n), t) && t != idx as u64 by {
            lemma_bit64_single(idx as u64, t);
        }
    }
}

/// Checks if a square is on the board
pub fn is_on_board(square: u8) -> (r: bool)
    ensures
        r == (square < 64),
{
    square < 64
}

/// Returns the opposite color
pub fn opp(color: Color) -> (r: Color)
    ensures
        r == (if color == Color::White {
            Color::Black
        } else {
            Color::White
        }),
{
    match color {
        Color::White => Color::Black,
        Color::Black => Color::White,
    }
}

} // verus!

use vstd::arithmetic::power2::*;

verus! {

/// Number of set bits in `x`.
pub open spec fn pop64(x: u64) -> nat
    decreases x,
{
    if x == 0 {
        0nat
    } else {
        (x % 2) as nat + pop64((x / 2) as u64)
    }
}

proof fn lemma_pop64_below(x: u64, k: nat)
    requires
        x < pow2(k),
    ensures
        pop64(x) <= k,
    decreases k,
{
    if x == 0 {
    } else {
        if k == 0 {
            assert(pow2(0) == 1) by {
                lemma2_to64();
            }
        } else {
            assert(pow2(k) == 2 * pow2((k - 1) as nat)) by {
                lemma_pow2_unfold(k);
            }
            lemma_pop64_below((x / 2) as u64, (k - 1) as nat);
        }
    }
}

pub proof fn lemma_pop64_bound(x: u64)
    ensures
        pop64(x) <= 64,
{
    assert(pow2(64) == 0x10000000000000000) by {
        lemma2_to64_rest();
    }
    lemma_pop64_below(x, 64);
}

/// Counts the set bits of a bitboard.
pub fn count_bits(x: u64) -> (n: u8)
    ensures
        n as nat == pop64(x),
{
    let mut w = x;
    let mut n: u8 = 0;
    proof {
        lemma_pop64_bound(x);
    }
    while w != 0
        invariant
            n as nat + pop64(w) == pop64(x),
            pop64(x) <= 64,
        decreases w,
    {
        n = n + (w % 2) as u8;
        w = w / 2;
    }
    n
}

pub open spec fn spec_rev64(x: u64) -> u64 {
    let a = ((x >> 1) & 0x5555555555555555u64) | ((x & 0x5555555555555555u64) << 1);
    let b = ((a >> 2) & 0x3333333333333333u64) | ((a & 0x3333333333333333u64) << 2);
    let c = ((b >> 4) & 0x0f0f0f0f0f0f0f0fu64) | ((b & 0x0f0f0f0f0f0f0f0fu64) << 4);
    let d = ((c >> 8) & 0x00ff00ff00ff00ffu64) | ((c & 0x00ff00ff00ff00ffu64) << 8);
    let e = ((d >> 16) & 0x0000ffff0000ffffu64) | ((d & 0x0000ffff0000ffffu64) << 16);
    (e >> 32) | (e << 32)
}

pub broadcast proof fn lemma_rev64_bits(x: u64, t: u64)
    by (bit_vector)
    requires
        t < 64,
    ensures
        #[trigger] bit64(spec_rev64(x), t) <==> bit64(x, (63 - t) as u64),
{
}

/// Reverses the 64 bits of a bitboard (bit 0 becomes bit 63 and so on).
pub fn rev64(x: u64) -> (r: u64)
    ensures
        r == spec_rev64(x),
{
    let a = ((x >> 1) & 0x5555555555555555u64) | ((x & 0x5555555555555555u64) << 1);
    let b = ((a >> 2) & 0x3333333333333333u64) | ((a & 0x3333333333333333u64) << 2);
    let c = ((b >> 4) & 0x0f0f0f0f0f0f0f0fu64) | ((b & 0x0f0f0f0f0f0f0f0fu64) << 4);
    let d = ((c >> 8) & 0x00ff00ff00ff00ffu64) | ((c & 0x00ff00ff00ff00ffu64) << 8);
    let e = ((d >> 16) & 0x0000ffff0000ffffu64) | ((d & 0x0000ffff0000ffffu64) << 16);
    (e >> 32) | (e << 32)
}

/// Lists the indices of all bits set in the given bitboard, lowest first.
pub fn enumerate_bits(bb: Bitboard) -> (r: Vec<u8>)
    ensures
        forall|k: int| 0 <= k < r@.len() ==> r@[k] < 64 && bit64(bb, r@[k] as u64),
        forall|i: u8| i < 64 && bit64(bb, i as u64) ==> r@.contains(i),
        forall|k: int, j: int| 0 <= k < j < r@.len() ==> r@[k] < r@[j],
{
    let mut out: Vec<u8> = Vec::new();
    let mut w = bb;
    while w != 0
        invariant
            forall|i: u64| bit64(w, i) ==> bit64(bb, i),
            forall|k: int|
                0 <= k < out@.len() ==> out@[k] < 64 && bit64(bb, out@[k] as u64) && !bit64(
                    w,
                    out@[k] as u64,
                ),
            forall|i: u8| i < 64 && bit64(bb, i as u64) && !bit64(w, i as u64) ==> out@.contains(i),
            forall|k: int, j: int| 0 <= k < j < out@.len() ==> out@[k] < out@[j],
            forall|k: int, i: u64|
                0 <= k < out@.len() && bit64(w, i) ==> (out@[k] as u64) < i,
        decreases w,
    {
        let tz32 = w.trailing_zeros();
        proof {
            broadcast use vstd::std_specs::bits::axiom_u64_trailing_zeros;

            assert(tz32 < 64);
        }
        let tz = tz32 as u8;
        let ghost old_out = out@;
        let ghost old_w = w;
        out.push(tz);
        pop_bit(&mut w, tz);
        proof {
            assert(bit64(old_w, tz as u64));
            assert(w < old_w) by (bit_vector)
                requires
                    w == old_w & !(1u64 << (tz as u64)),
                    (old_w >> (tz as u64)) & 1u64 == 1u64,
                    tz < 64,
            ;
            assert forall|i: u64| bit64(old_w, i) implies i >= tz as u64 by {
                if i < tz as u64 {
                    assert((old_w >> i) & 1u64 == 0u64);
                }
            }
            assert forall|i: u8| i < 64 && bit64(bb, i as u64) && !bit64(w, i as u64) implies
                out@.contains(i) by {
                if i as u64 == tz as u64 {
                    assert(out@[out@.len() - 1] == tz);
                } else {
                    assert(!bit64(old_w, i as u64));
                    assert(old_out.contains(i));
                    let k = choose|k: int| 0 <= k < old_out.len() && old_out[k] == i;
                    assert(out@[k] == i);
                }
            }
        }
    }
    proof {
        assert forall|i: u8| i < 64 && bit64(bb, i as u64) implies out@.contains(i) by {
            lemma_bit64_zero(i as u64);
            assert(!bit64(w, i as u64));
        }
    }
    out
}

} // verus!

use vstd::arithmetic::div_mod::{lemma_div_denominator, lemma_mod_breakdown};
use vstd::bits::{lemma_u64_pow2_no_overflow, lemma_u64_shl_is_mul, lemma_u64_shr_is_div};

verus! {

pub proof fn lemma_pop64_zero_iff(x: u64)
    ensures
        (pop64(x) == 0) <==> x == 0,
    decreases x,
{
    if x != 0 && x % 2 == 0 {
        lemma_pop64_zero_iff((x / 2) as u64);
    }
}

proof fn lemma_pop64_double(x: u64)
    requires
        x < 0x8000000000000000u64,
    ensures
        pop64((2 * x) as u64) == pop64(x),
{
}

proof fn lemma_pop64_mul_pow2(x: u64, n: nat)
    requires
        x as nat * pow2(n) <= u64::MAX as nat,
    ensures
        pop64((x as nat * pow2(n)) as u64) == pop64(x),
    decreases n,
{
    if n == 0 {
        assert(pow2(0) == 1) by {
            lemma2_to64();
        }
    } else {
        lemma_pow2_unfold(n);
        lemma_pow2_pos((n - 1) as nat);
        assert(x as nat * pow2(n) == 2 * (x as nat * pow2((n - 1) as nat))) by (nonlinear_arith)
            requires
                pow2(n) == 2 * pow2((n - 1) as nat),
        ;
        lemma_pop64_mul_pow2(x, (n - 1) as nat);
        lemma_pop64_double((x as nat * pow2((n - 1) as nat)) as u64);
    }
}

proof fn lemma_pop64_split(a: u64, j: nat)
    requires
        j < 64,
    ensures
        pop64(a) == pop64((a as nat % pow2(j)) as u64) + pop64((a as nat / pow2(j)) as u64),
    decreases j,
{
    lemma_pow2_pos(j);
    if j == 0 {
        assert(pow2(0) == 1) by {
            lemma2_to64();
        }
    } else {
        lemma_pow2_unfold(j);
        lemma_pow2_pos((j - 1) as nat);
        let p = pow2((j - 1) as nat) as int;
        let q = pow2(j) as int;
        assert(q < 0x10000000000000000) by {
            lemma_pow2_strictly_increases(j, 64);
            lemma2_to64_rest();
        }
        lemma_pop64_split((a / 2) as u64, (j - 1) as nat);
        lemma_mod_breakdown(a as int, 2, p);
        lemma_div_denominator(a as int, 2, p);
        assert(a as int % q == 2 * ((a as int / 2) % p) + a as int % 2);
        assert((a as int / 2) % p < p && 0 <= (a as int / 2) % p) by (nonlinear_arith)
            requires
                p > 0,
        ;
        let low = (a as nat % pow2(j)) as u64;
        assert(low == 2 * ((a as int / 2) % p) + a as int % 2);
        assert(low % 2 == a % 2 && low / 2 == (a as int / 2) % p);
        assert(a as int / q == (a as int / 2) / p);
    }
}

proof fn lemma_pop64_shr_le(a: u64, k: u64)
    requires
        k < 64,
    ensures
        pop64(a >> k) <= pop64(a),
{
    lemma_u64_shr_is_div(a, k);
    lemma_pop64_split(a, k as nat);
}

proof fn lemma_pop64_shl_le(a: u64, k: u64)
    requires
        k < 64,
    ensures
        pop64(a << k) <= pop64(a),
    decreases k,
{
    if k == 0 {
        assert(a << 0u64 == a) by (bit_vector);
    } else {
        lemma_pop64_shl_le(a, (k - 1) as u64);
        let b = a << ((k - 1) as u64);
        let y = b & 0x7fffffffffffffffu64;
        assert(a << k == (y * 2) as u64 && y & !b == 0 && y < 0x8000000000000000u64)
            by (bit_vector)
            requires
                b == a << ((k - 1) as u64) && y == b & 0x7fffffffffffffffu64 && 0 < k < 64,
        ;
        lemma_pop64_double(y);
        lemma_pop64_subset_le(y, b);
    }
}

pub proof fn lemma_pop64_subset_le(y: u64, x: u64)
    requires
        y & !x == 0,
    ensures
        pop64(y) <= pop64(x),
    decreases x, y,
{
    if x == 0 {
        assert(y == 0) by (bit_vector)
            requires
                y & !x == 0 && x == 0,
        ;
    } else if y == 0 {
    } else {
        assert(y % 2 <= x % 2 && ((y / 2) as u64) & !((x / 2) as u64) == 0) by (bit_vector)
            requires
                y & !x == 0,
        ;
        lemma_pop64_subset_le((y / 2) as u64, (x / 2) as u64);
    }
}

pub proof fn lemma_pop64_or_le(a: u64, b: u64)
    ensures
        pop64(a | b) <= pop64(a) + pop64(b),
    decreases a, b,
{
    if a == 0 && b == 0 {
        assert(0u64 | 0u64 == 0u64) by (bit_vector);
    } else {
        assert((a | b) % 2 <= a % 2 + b % 2 && ((a | b) / 2) as u64 == ((a / 2) as u64) | ((b
            / 2) as u64)) by (bit_vector);
        lemma_pop64_or_le((a / 2) as u64, (b / 2) as u64);
    }
}

proof fn lemma_base_mask_pops()
    ensures
        pop64(0xffu64) == 8,
        pop64(0x0101010101010101u64) == 8,
        pop64(0x8040201008040201u64) == 8,
        pop64(0x0102040810204080u64) == 8,
{
    reveal_with_fuel(pop64, 65);
}

/// Every rank mask and every file mask holds exactly eight squares.
pub proof fn lemma_mask_popcounts(s: u64)
    requires
        s < 64,
    ensures
        pop64(spec_mask_rank(s)) == 8,
        pop64(spec_mask_file(s)) == 8,
        pop64(spec_mask_diag(s)) <= 8,
        pop64(spec_mask_anti_diag(s)) <= 8,
{
    lemma_base_mask_pops();
    lemma2_to64();
    lemma2_to64_rest();
    let kr = (s / 8 * 8) as u64;
    let kf = (s % 8) as u64;
    lemma_u64_pow2_no_overflow(kr as nat);
    lemma_u64_shl_is_mul(0xffu64, kr);
    lemma_pop64_mul_pow2(0xffu64, kr as nat);
    lemma_u64_pow2_no_overflow(kf as nat);
    lemma_u64_shl_is_mul(0x0101010101010101u64, kf);
    lemma_pop64_mul_pow2(0x0101010101010101u64, kf as nat);
    if s / 8 >= s % 8 {
        lemma_pop64_shl_le(0x8040201008040201u64, ((s / 8 - s % 8) * 8) as u64);
    } else {
        lemma_pop64_shr_le(0x8040201008040201u64, ((s % 8 - s / 8) * 8) as u64);
    }
    if s / 8 + s % 8 >= 7 {
        lemma_pop64_shl_le(0x0102040810204080u64, ((s / 8 + s % 8 - 7) * 8) as u64);
    } else {
        lemma_pop64_shr_le(0x0102040810204080u64, ((7 - s / 8 - s % 8) * 8) as u64);
    }
}

/// A nonzero bitboard has a set bit.
pub proof fn lemma_nonzero_bit(y: u64)
    requires
        y != 0,
    ensures
        exists|u: u64| #[trigger] bit64(y, u),
    decreases y,
{
    if y & 1 == 1 {
        assert(bit64(y, 0)) by (bit_vector)
            requires
                y & 1 == 1,
        ;
    } else {
        assert(y / 2 != 0) by (bit_vector)
            requires
                y != 0 && y & 1 != 1,
        ;
        lemma_nonzero_bit((y / 2) as u64);
        let u = choose|u: u64| #[trigger] bit64((y / 2) as u64, u);
        assert(u < 63 && bit64(y, (u + 1) as u64)) by (bit_vector)
            requires
                u < 64 && (((y / 2) as u64) >> u) & 1 == 1,
        ;
    }
}

} // verus!

use crate::fen::Squares;
use crate::piece::Piece;

verus! {

/// Translates a mailbox representation to a bitboard for a given piece.
pub fn mailbox_to_bb(mailbox: &Squares, piece: Piece) -> (bb: Bitboard)
    ensures
        forall|t: u64| #[trigger] bit64(bb, t) <==> t < 64 && mailbox@[t as int] == Some(piece),
{
    let mut bitboard: Bitboard = 0;
    let mut idx: usize = 0;
    proof {
        broadcast use lemma_bit64_zero;

    }
    while idx < 64
        invariant
            idx <= 64,
            forall|t: u64|
                #[trigger] bit64(bitboard, t) <==> t < idx as u64 && mailbox@[t as int] == Some(
                    piece,
                ),
        decreases 64 - idx,
    {
        let matches_piece = match mailbox[idx] {
            Some(p) => p == piece,
            None => false,
        };
        let ghost before = bitboard;
        if matches_piece {
            bitboard = bitboard | (1u64 << (idx as u64));
            proof {
                assert forall|t: u64| #[trigger] bit64(bitboard, t) <==> bit64(before, t) || t
                    == idx as u64 by {
                    lemma_bit64_or(before, 1u64 << (idx as u64), t);
                    lemma_bit64_single(idx as u64, t);
                }
            }
        }
        idx = idx + 1;
    }
    bitboard
}

} // verus!

verus! {

pub broadcast proof fn lemma_bit64_test(x: u64, t: u64)
    by (bit_vector)
    requires
        t < 64,
    ensures
        (#[trigger] (x & (1u64 << t)) == 0) <==> !bit64(x, t),
{
}

} // verus!

verus! {

/// Formats a bitboard in a pretty way for debugging: eight rows of eight
/// cells, highest rank first, each cell '1' or '0' followed by a space, each
/// row ended by a newline.
pub fn format_bitboard(bitboard: Bitboard) -> (r: String)
    ensures
        r@.len() == 136,
        forall|b: int, c: int|
            0 <= b < 8 && 0 <= c < 8 ==> #[trigger] r@[17 * b + 2 * c] == (if bit64(
                bitboard,
                ((7 - b) * 8 + c) as u64,
            ) {
                '1'
            } else {
                '0'
            }) && r@[17 * b + 2 * c + 1] == ' ',
        forall|b: int| 0 <= b < 8 ==> #[trigger] r@[17 * b + 16] == '\n',
{
    let mut board_str = String::new();
    let mut done: usize = 0;
    while done < 8
        invariant
            done <= 8,
            board_str@.len() == 17 * done,
            forall|b: int, c: int|
                0 <= b < done as int && 0 <= c < 8 ==> #[trigger] board_str@[17 * b + 2 * c] == (
                if bit64(bitboard, ((7 - b) * 8 + c) as u64) {
                    '1'
                } else {
                    '0'
                }) && board_str@[17 * b + 2 * c + 1] == ' ',
            forall|b: int| 0 <= b < done as int ==> #[trigger] board_str@[17 * b + 16] == '\n',
        decreases 8 - done,
    {
        let row = 7 - done;
        let mut col: usize = 0;
        while col < 8
            invariant
                done < 8,
                row == 7 - done,
                col <= 8,
                board_str@.len() == 17 * done + 2 * col,
                forall|b: int, c: int|
                    0 <= b < done as int && 0 <= c < 8 ==> #[trigger] board_str@[17 * b + 2 * c]
                        == (if bit64(bitboard, ((7 - b) * 8 + c) as u64) {
                        '1'
                    } else {
                        '0'
                    }) && board_str@[17 * b + 2 * c + 1] == ' ',
                forall|b: int| 0 <= b < done as int ==> #[trigger] board_str@[17 * b + 16] == '\n',
                forall|c: int|
                    0 <= c < col as int ==> #[trigger] board_str@[17 * done + 2 * c] == (if bit64(
                        bitboard,
                        ((7 - done as int) * 8 + c) as u64,
                    ) {
                        '1'
                    } else {
                        '0'
                    }) && board_str@[17 * done + 2 * c + 1] == ' ',
            decreases 8 - col,
        {
            let pos = row * 8 + col;
            proof {
                reveal_strlit("1");
                reveal_strlit("0");
                reveal_strlit(" ");
            }
            if (bitboard >> (pos as u64)) & 1 == 1 {
                board_str.append("1");
            } else {
                board_str.append("0");
            }
            board_str.append(" ");
            col = col + 1;
        }
        proof {
            reveal_strlit("\n");
        }
        board_str.append("\n");
        done = done + 1;
    }
    board_str
}

} // verus!
