//! The attack table store: per-square hash parameters for both slider types,
//! leaper attack tables, and the shared flat slider attack table, built once
//! and then only read.

use vstd::prelude::*;

use vstd::arithmetic::power2::pow2;

use crate::attacks::{
    king_att, knight_att, pawn_att, spec_bishop_reach, spec_clear_anti_diag, spec_clear_diag,
    spec_clear_file, spec_clear_rank, spec_king_att, spec_knight_att, spec_pawn_att,
    spec_rook_reach,
};
use crate::attacks::{lemma_bishop_att_reach, lemma_rook_att_reach};
use crate::magic_numbers::{
    calculate_hash_index, init_magic, spec_collision_free, spec_hash, spec_magic_entry_ok,
    spec_relevant_mask, spec_shipped_magic, spec_shipped_magics_work, spec_slider_att, Magic,
    SLIDER_TABLE_SIZE,
};
use crate::util::{
    bit64, lemma_bit64_and, lemma_bit64_not, lemma_bit64_zero, lemma_edges_bits, pop64, spec_edges,
    Bitboard, Color,
};

verus! {

/// Write-once, read-many lookup structures: 64 bishop and 64 rook magic
/// records, 64 attack bitboards for each leaper, and the shared slider table.
#[derive(Debug, PartialEq)]
pub struct AttackTables {
    pub slider: Vec<Bitboard>,
    pub bishop_magics: Vec<Magic>,
    pub rook_magics: Vec<Magic>,
    pub knight: Vec<Bitboard>,
    pub king: Vec<Bitboard>,
    pub pawn_white: Vec<Bitboard>,
    pub pawn_black: Vec<Bitboard>,
}

impl AttackTables {
    /// The store is fully initialized: every leaper table entry equals the
    /// leaper formula, every magic record hashes its occupancy subsets to the
    /// true attack sets inside its own block, the 128 blocks are laid out
    /// contiguously from offset zero, and wherever a shipped constant is a
    /// working multiplier the record carries exactly that constant.
    pub open spec fn wf(&self) -> bool {
        &&& self.bishop_magics@.len() == 64
        &&& self.rook_magics@.len() == 64
        &&& self.knight@.len() == 64
        &&& self.king@.len() == 64
        &&& self.pawn_white@.len() == 64
        &&& self.pawn_black@.len() == 64
        &&& forall|s: int|
            0 <= s < 64 ==> spec_magic_entry_ok(
                #[trigger] self.bishop_magics@[s],
                s as u64,
                true,
                self.slider@,
            )
        &&& forall|s: int|
            0 <= s < 64 ==> spec_magic_entry_ok(
                #[trigger] self.rook_magics@[s],
                s as u64,
                false,
                self.slider@,
            )
        &&& forall|s: int| 0 <= s < 64 ==> #[trigger] self.knight@[s] == spec_knight_att(s as u64)
        &&& forall|s: int| 0 <= s < 64 ==> #[trigger] self.king@[s] == spec_king_att(s as u64)
        &&& forall|s: int|
            0 <= s < 64 ==> #[trigger] self.pawn_white@[s] == spec_pawn_att(s as u64, Color::White)
        &&& forall|s: int|
            0 <= s < 64 ==> #[trigger] self.pawn_black@[s] == spec_pawn_att(s as u64, Color::Black)
        &&& self.bishop_magics@[0].offset == 0
        &&& forall|s: int|
            0 <= s < 64 ==> (#[trigger] self.rook_magics@[s]).offset == self.bishop_magics@[s].offset
                + pow2(pop64(self.bishop_magics@[s].mask))
        &&& forall|s: int|
            0 <= s < 63 ==> (#[trigger] self.bishop_magics@[s + 1]).offset
                == self.rook_magics@[s].offset + pow2(pop64(self.rook_magics@[s].mask))
        &&& self.slider@.len() == self.rook_magics@[63].offset + pow2(
            pop64(self.rook_magics@[63].mask),
        )
        &&& self.slider@.len() == SLIDER_TABLE_SIZE
        &&& forall|s: int|
            0 <= s < 64 ==> (spec_shipped_magic(s as u64, true) != 0 && spec_collision_free(
                s as u64,
                true,
                spec_shipped_magic(s as u64, true),
            ) ==> (#[trigger] self.bishop_magics@[s]).magic == spec_shipped_magic(s as u64, true))
        &&& forall|s: int|
            0 <= s < 64 ==> (spec_shipped_magic(s as u64, false) != 0 && spec_collision_free(
                s as u64,
                false,
                spec_shipped_magic(s as u64, false),
            ) ==> (#[trigger] self.rook_magics@[s]).magic == spec_shipped_magic(s as u64, false))
    }
}

/// A block filled at some point stays valid when the table grows at the end.
proof fn lemma_entry_ok_extend(m: Magic, s: u64, bishop: bool, t1: Seq<u64>, t2: Seq<u64>)
    requires
        spec_magic_entry_ok(m, s, bishop, t1),
        t1.len() <= t2.len(),
        forall|i: int| 0 <= i < t1.len() ==> t2[i] == t1[i],
    ensures
        spec_magic_entry_ok(m, s, bishop, t2),
{
    assert forall|b: u64| b & !m.mask == 0 implies t2[m.offset + #[trigger] spec_hash(
        m.magic,
        b,
        m.shift,
    ) as int] == spec_slider_att(s, bishop, b) by {
        assert(t1[m.offset + spec_hash(m.magic, b, m.shift) as int] == spec_slider_att(
            s,
            bishop,
            b,
        ));
    }
    assert forall|j: int| m.offset <= j < m.offset + pow2(pop64(m.mask)) implies t2[j] == 0
        || exists|b: u64|
        b & !m.mask == 0 && m.offset + #[trigger] spec_hash(m.magic, b, m.shift) as int == j
            && t2[j] == spec_slider_att(s, bishop, b) by {
        if t1[j] != 0 {
            let bw = choose|b: u64|
                b & !m.mask == 0 && m.offset + #[trigger] spec_hash(m.magic, b, m.shift) as int == j
                    && t1[j] == spec_slider_att(s, bishop, b);
            assert(bw & !m.mask == 0 && m.offset + spec_hash(m.magic, bw, m.shift) as int == j
                && t2[j] == spec_slider_att(s, bishop, bw));
        }
    }
}

/// Total size of the first `n` squares' four table blocks: the sum of
/// `2^popcount(relevant_mask)` over both slider types. Over all 64 squares it
/// comes to the fixed capacity constant of the shared table.
pub open spec fn spec_capacity(n: int) -> nat
    decreases n,
{
    if n <= 0 {
        0
    } else {
        spec_capacity(n - 1) + pow2(pop64(spec_relevant_mask((n - 1) as u64, true))) + pow2(
            pop64(spec_relevant_mask((n - 1) as u64, false)),
        )
    }
}

/// Builds the complete attack table store: for each square first the bishop
/// block, then the rook block, plus the four leaper tables. Returns `None`
/// only if some magic-number search gave up or the table came out at an
/// unexpected size, neither of which the shipped constants cause.
pub fn init_tables() -> (res: Option<AttackTables>)
    ensures
        res is Some ==> res.unwrap().wf(),
        spec_shipped_magics_work() && spec_capacity(64) == SLIDER_TABLE_SIZE ==> res is Some,
{
    let mut slider: Vec<Bitboard> = Vec::new();
    let mut bishop_magics: Vec<Magic> = Vec::new();
    let mut rook_magics: Vec<Magic> = Vec::new();
    let mut knight: Vec<Bitboard> = Vec::new();
    let mut king: Vec<Bitboard> = Vec::new();
    let mut pawn_white: Vec<Bitboard> = Vec::new();
    let mut pawn_black: Vec<Bitboard> = Vec::new();

    let mut idx: u8 = 0;
    while idx < 64
        invariant
            idx <= 64,
            bishop_magics@.len() == idx as int,
            rook_magics@.len() == idx as int,
            knight@.len() == idx as int,
            king@.len() == idx as int,
            pawn_white@.len() == idx as int,
            pawn_black@.len() == idx as int,
            forall|s: int|
                0 <= s < idx as int ==> spec_magic_entry_ok(
                    #[trigger] bishop_magics@[s],
                    s as u64,
                    true,
                    slider@,
                ),
            forall|s: int|
                0 <= s < idx as int ==> spec_magic_entry_ok(
                    #[trigger] rook_magics@[s],
                    s as u64,
                    false,
                    slider@,
                ),
            forall|s: int| 0 <= s < idx as int ==> #[trigger] knight@[s] == spec_knight_att(s as u64),
            forall|s: int| 0 <= s < idx as int ==> #[trigger] king@[s] == spec_king_att(s as u64),
            forall|s: int|
                0 <= s < idx as int ==> #[trigger] pawn_white@[s] == spec_pawn_att(
                    s as u64,
                    Color::White,
                ),
            forall|s: int|
                0 <= s < idx as int ==> #[trigger] pawn_black@[s] == spec_pawn_att(
                    s as u64,
                    Color::Black,
                ),
            slider@.len() == spec_capacity(idx as int),
            idx == 0 ==> slider@.len() == 0,
            idx > 0 ==> bishop_magics@[0].offset == 0,
            forall|s: int|
                0 <= s < idx as int ==> (#[trigger] rook_magics@[s]).offset
                    == bishop_magics@[s].offset + pow2(pop64(bishop_magics@[s].mask)),
            forall|s: int|
                0 <= s < idx as int - 1 ==> (#[trigger] bishop_magics@[s + 1]).offset
                    == rook_magics@[s].offset + pow2(pop64(rook_magics@[s].mask)),
            idx > 0 ==> slider@.len() == rook_magics@[idx as int - 1].offset + pow2(
                pop64(rook_magics@[idx as int - 1].mask),
            ),
            forall|s: int|
                0 <= s < idx as int ==> (spec_shipped_magic(s as u64, true) != 0
                    && spec_collision_free(s as u64, true, spec_shipped_magic(s as u64, true)) ==> (
                #[trigger] bishop_magics@[s]).magic == spec_shipped_magic(s as u64, true)),
            forall|s: int|
                0 <= s < idx as int ==> (spec_shipped_magic(s as u64, false) != 0
                    && spec_collision_free(s as u64, false, spec_shipped_magic(s as u64, false))
                    ==> (#[trigger] rook_magics@[s]).magic == spec_shipped_magic(s as u64, false)),
        decreases 64 - idx,
    {
        let ghost slider0 = slider@;
        let m = match init_magic(idx, true, &mut slider) {
            Some(m) => m,
            None => {
                proof {
                    if spec_shipped_magics_work() {
                        assert(spec_shipped_magic(idx as u64, true) != 0);
                    }
                }
                return None;
            },
        };
        let ghost slider1 = slider@;
        bishop_magics.push(m);
        let m2 = match init_magic(idx, false, &mut slider) {
            Some(m2) => m2,
            None => {
                proof {
                    if spec_shipped_magics_work() {
                        assert(spec_shipped_magic(idx as u64, false) != 0);
                    }
                }
                return None;
            },
        };
        rook_magics.push(m2);
        knight.push(knight_att(idx));
        king.push(king_att(idx));
        pawn_white.push(pawn_att(idx, Color::White));
        pawn_black.push(pawn_att(idx, Color::Black));
        proof {
            assert forall|s: int| 0 <= s < idx as int + 1 implies spec_magic_entry_ok(
                #[trigger] bishop_magics@[s],
                s as u64,
                true,
                slider@,
            ) by {
                if s < idx as int {
                    lemma_entry_ok_extend(bishop_magics@[s], s as u64, true, slider0, slider1);
                    lemma_entry_ok_extend(bishop_magics@[s], s as u64, true, slider1, slider@);
                } else {
                    lemma_entry_ok_extend(m, idx as u64, true, slider1, slider@);
                }
            }
            assert forall|s: int| 0 <= s < idx as int + 1 implies spec_magic_entry_ok(
                #[trigger] rook_magics@[s],
                s as u64,
                false,
                slider@,
            ) by {
                if s < idx as int {
                    lemma_entry_ok_extend(rook_magics@[s], s as u64, false, slider0, slider1);
                    lemma_entry_ok_extend(rook_magics@[s], s as u64, false, slider1, slider@);
                }
            }
        }
        idx = idx + 1;
    }
    if slider.len() != SLIDER_TABLE_SIZE {
        return None;
    }
    Some(
        AttackTables {
            slider,
            bishop_magics,
            rook_magics,
            knight,
            king,
            pawn_white,
            pawn_black,
        },
    )
}

} // verus!

verus! {

proof fn lemma_between_square_interior_file(s: u64, t: u64, u: u64)
    requires
        s < 64,
        t < 64,
        u < 64,
        t != s,
        t % 8 == s % 8,
        u % 8 == s % 8,
        if s < t {
            s < u < t
        } else {
            t < u < s
        },
    ensures
        bit64(spec_relevant_mask(s, false), u),
{
    reveal(spec_relevant_mask);
    reveal(spec_slider_att);
    assert(u == 8 * (u / 8) + u % 8 && s == 8 * (s / 8) + s % 8 && t == 8 * (t / 8) + t % 8);
    assert(1 <= u / 8 <= 6);
    assert(spec_clear_file(0, s, u)) by {
        assert forall|w: u64|
            w < 64 && w % 8 == s % 8 && (if s < u {
                s < w < u
            } else {
                u < w < s
            }) implies !bit64(0u64, w) by {
            lemma_bit64_zero(w);
        }
    }
    assert(spec_rook_reach(s, 0, u));
    lemma_rook_att_reach(s, 0, u);
    lemma_edges_bits(s, u);
    lemma_bit64_not(spec_edges(s), u);
    lemma_bit64_and(spec_slider_att(s, false, 0), !spec_edges(s), u);
}

proof fn lemma_between_square_interior_rank(s: u64, t: u64, u: u64)
    requires
        s < 64,
        t < 64,
        u < 64,
        t != s,
        t / 8 == s / 8,
        u / 8 == s / 8,
        if s < t {
            s < u < t
        } else {
            t < u < s
        },
    ensures
        bit64(spec_relevant_mask(s, false), u),
{
    reveal(spec_relevant_mask);
    reveal(spec_slider_att);
    assert(u == 8 * (u / 8) + u % 8 && s == 8 * (s / 8) + s % 8 && t == 8 * (t / 8) + t % 8);
    assert(1 <= u % 8 <= 6);
    assert(spec_clear_rank(0, s, u)) by {
        assert forall|w: u64|
            w < 64 && w / 8 == s / 8 && (if s < u {
                s < w < u
            } else {
                u < w < s
            }) implies !bit64(0u64, w) by {
            lemma_bit64_zero(w);
        }
    }
    assert(spec_rook_reach(s, 0, u));
    lemma_rook_att_reach(s, 0, u);
    lemma_edges_bits(s, u);
    lemma_bit64_not(spec_edges(s), u);
    lemma_bit64_and(spec_slider_att(s, false, 0), !spec_edges(s), u);
}

proof fn lemma_between_square_interior_diag(s: u64, t: u64, u: u64)
    requires
        s < 64,
        t < 64,
        u < 64,
        t != s,
        t / 8 - t % 8 == s / 8 - s % 8,
        u / 8 - u % 8 == s / 8 - s % 8,
        if s < t {
            s < u < t
        } else {
            t < u < s
        },
    ensures
        bit64(spec_relevant_mask(s, true), u),
{
    reveal(spec_relevant_mask);
    reveal(spec_slider_att);
    assert(u == 8 * (u / 8) + u % 8 && s == 8 * (s / 8) + s % 8 && t == 8 * (t / 8) + t % 8);
    assert(1 <= u / 8 <= 6 && 1 <= u % 8 <= 6);
    assert(spec_clear_diag(0, s, u)) by {
        assert forall|w: u64|
            w < 64 && w / 8 - w % 8 == s / 8 - s % 8 && (if s < u {
                s < w < u
            } else {
                u < w < s
            }) implies !bit64(0u64, w) by {
            lemma_bit64_zero(w);
        }
    }
    assert(spec_bishop_reach(s, 0, u));
    lemma_bishop_att_reach(s, 0, u);
    lemma_edges_bits(s, u);
    lemma_bit64_not(spec_edges(s), u);
    lemma_bit64_and(spec_slider_att(s, true, 0), !spec_edges(s), u);
}

proof fn lemma_between_square_interior_anti_diag(s: u64, t: u64, u: u64)
    requires
        s < 64,
        t < 64,
        u < 64,
        t != s,
        t / 8 + t % 8 == s / 8 + s % 8,
        u / 8 + u % 8 == s / 8 + s % 8,
        if s < t {
            s < u < t
        } else {
            t < u < s
        },
    ensures
        bit64(spec_relevant_mask(s, true), u),
{
    reveal(spec_relevant_mask);
    reveal(spec_slider_att);
    assert(u == 8 * (u / 8) + u % 8 && s == 8 * (s / 8) + s % 8 && t == 8 * (t / 8) + t % 8);
    assert(1 <= u / 8 <= 6 && 1 <= u % 8 <= 6);
    assert(spec_clear_anti_diag(0, s, u)) by {
        assert forall|w: u64|
            w < 64 && w / 8 + w % 8 == s / 8 + s % 8 && (if s < u {
                s < w < u
            } else {
                u < w < s
            }) implies !bit64(0u64, w) by {
            lemma_bit64_zero(w);
        }
    }
    assert(spec_bishop_reach(s, 0, u));
    lemma_bishop_att_reach(s, 0, u);
    lemma_edges_bits(s, u);
    lemma_bit64_not(spec_edges(s), u);
    lemma_bit64_and(spec_slider_att(s, true, 0), !spec_edges(s), u);
}

/// Occupancy outside the relevant mask never changes what a slider reaches:
/// every square strictly between the slider and a target on a shared line is
/// itself part of the relevant mask.
pub proof fn lemma_reach_mask_irrelevant(s: u64, o: u64, bishop: bool, t: u64)
    requires
        s < 64,
    ensures
        bishop ==> (spec_bishop_reach(s, o & spec_relevant_mask(s, true), t) <==> spec_bishop_reach(
            s,
            o,
            t,
        )),
        !bishop ==> (spec_rook_reach(s, o & spec_relevant_mask(s, false), t) <==> spec_rook_reach(
            s,
            o,
            t,
        )),
{
    let m = spec_relevant_mask(s, bishop);
    let om = o & m;
    if t < 64 && t != s {
        assert forall|u: u64| u < 64 implies (bit64(om, u) ==> bit64(o, u)) by {
            lemma_bit64_and(o, m, u);
        }
        if bishop {
            if t / 8 - t % 8 == s / 8 - s % 8 {
                if spec_clear_diag(o, s, t) {
                    assert(spec_clear_diag(om, s, t)) by {
                        assert forall|u: u64|
                            u < 64 && u / 8 - u % 8 == s / 8 - s % 8 && (if s < t {
                                s < u < t
                            } else {
                                t < u < s
                            }) implies !bit64(om, u) by {
                            lemma_bit64_and(o, m, u);
                        }
                    }
                }
                if spec_clear_diag(om, s, t) {
                    assert(spec_clear_diag(o, s, t)) by {
                        assert forall|u: u64|
                            u < 64 && u / 8 - u % 8 == s / 8 - s % 8 && (if s < t {
                                s < u < t
                            } else {
                                t < u < s
                            }) implies !bit64(o, u) by {
                            lemma_between_square_interior_diag(s, t, u);
                            lemma_bit64_and(o, m, u);
                        }
                    }
                }
            }
            if t / 8 + t % 8 == s / 8 + s % 8 {
                if spec_clear_anti_diag(o, s, t) {
                    assert(spec_clear_anti_diag(om, s, t)) by {
                        assert forall|u: u64|
                            u < 64 && u / 8 + u % 8 == s / 8 + s % 8 && (if s < t {
                                s < u < t
                            } else {
                                t < u < s
                            }) implies !bit64(om, u) by {
                            lemma_bit64_and(o, m, u);
                        }
                    }
                }
                if spec_clear_anti_diag(om, s, t) {
                    assert(spec_clear_anti_diag(o, s, t)) by {
                        assert forall|u: u64|
                            u < 64 && u / 8 + u % 8 == s / 8 + s % 8 && (if s < t {
                                s < u < t
                            } else {
                                t < u < s
                            }) implies !bit64(o, u) by {
                            lemma_between_square_interior_anti_diag(s, t, u);
                            lemma_bit64_and(o, m, u);
                        }
                    }
                }
            }
        } else {
            if t % 8 == s % 8 {
                if spec_clear_file(o, s, t) {
                    assert(spec_clear_file(om, s, t)) by {
                        assert forall|u: u64|
                            u < 64 && u % 8 == s % 8 && (if s < t {
                                s < u < t
                            } else {
                                t < u < s
                            }) implies !bit64(om, u) by {
                            lemma_bit64_and(o, m, u);
                        }
                    }
                }
                if spec_clear_file(om, s, t) {
                    assert(spec_clear_file(o, s, t)) by {
                        assert forall|u: u64|
                            u < 64 && u % 8 == s % 8 && (if s < t {
                                s < u < t
                            } else {
                                t < u < s
                            }) implies !bit64(o, u) by {
                            lemma_between_square_interior_file(s, t, u);
                            lemma_bit64_and(o, m, u);
                        }
                    }
                }
            }
            if t / 8 == s / 8 {
                if spec_clear_rank(o, s, t) {
                    assert(spec_clear_rank(om, s, t)) by {
                        assert forall|u: u64|
                            u < 64 && u / 8 == s / 8 && (if s < t {
                                s < u < t
                            } else {
                                t < u < s
                            }) implies !bit64(om, u) by {
                            lemma_bit64_and(o, m, u);
                        }
                    }
                }
                if spec_clear_rank(om, s, t) {
                    assert(spec_clear_rank(o, s, t)) by {
                        assert forall|u: u64|
                            u < 64 && u / 8 == s / 8 && (if s < t {
                                s < u < t
                            } else {
                                t < u < s
                            }) implies !bit64(o, u) by {
                            lemma_between_square_interior_rank(s, t, u);
                            lemma_bit64_and(o, m, u);
                        }
                    }
                }
            }
        }
    }
}

} // verus!

verus! {

proof fn lemma_mask_and(o: u64, m: u64)
    by (bit_vector)
    ensures
        (o & m) & !m == 0,
        o & !m == 0 ==> o & m == o,
{
}

/// O(1) slider attack lookup: hashes the masked occupancy with the square's
/// magic record and reads the shared table. An off-board square yields the
/// empty bitboard as a defensive default.
proof fn lemma_slider_lookup_bits(s: u64, occupancy: u64, bishop: bool, r: u64)
    requires
        s < 64,
        r == spec_slider_att(s, bishop, occupancy & spec_relevant_mask(s, bishop)),
    ensures
        forall|t: u64|
            #[trigger] bit64(r, t) <==> (if bishop {
                spec_bishop_reach(s, occupancy, t)
            } else {
                spec_rook_reach(s, occupancy, t)
            }),
{
    reveal(spec_slider_att);
    let b = occupancy & spec_relevant_mask(s, bishop);
    assert forall|t: u64|
        #[trigger] bit64(r, t) <==> (if bishop {
            spec_bishop_reach(s, occupancy, t)
        } else {
            spec_rook_reach(s, occupancy, t)
        }) by {
        if bishop {
            lemma_bishop_att_reach(s, b, t);
        } else {
            lemma_rook_att_reach(s, b, t);
        }
        lemma_reach_mask_irrelevant(s, occupancy, bishop, t);
    }
}

/// O(1) slider attack lookup: hashes the masked occupancy with the square's
/// magic record and reads the shared table. An off-board square yields the
/// empty bitboard as a defensive default.
pub fn lookup_slider_att(tables: &AttackTables, square: u8, occupancy: Bitboard, bishop: bool) -> (r:
    Bitboard)
    requires
        tables.wf(),
    ensures
        square < 64 ==> r == spec_slider_att(
            square as u64,
            bishop,
            occupancy & spec_relevant_mask(square as u64, bishop),
        ),
        square < 64 ==> forall|t: u64|
            #[trigger] bit64(r, t) <==> (if bishop {
                spec_bishop_reach(square as u64, occupancy, t)
            } else {
                spec_rook_reach(square as u64, occupancy, t)
            }),
        square >= 64 ==> r == 0,
{
    if square > 63 {
        return 0;
    }
    let ghost s = square as u64;
    let m = if bishop {
        tables.bishop_magics[square as usize]
    } else {
        tables.rook_magics[square as usize]
    };
    proof {
        assert(spec_magic_entry_ok(m, s, bishop, tables.slider@));
        lemma_mask_and(occupancy, m.mask);
        assert(48 <= m.shift < 64);
        assert(spec_hash(m.magic, occupancy & m.mask, m.shift) < pow2(pop64(m.mask)));
        assert(m.offset + pow2(pop64(m.mask)) <= tables.slider@.len());
    }
    let hash_index = calculate_hash_index(m.magic, occupancy & m.mask, m.shift);
    let total = tables.slider.len();
    proof {
        assert(hash_index == spec_hash(m.magic, occupancy & m.mask, m.shift));
        assert(hash_index < pow2(pop64(m.mask)));
        assert(m.offset + hash_index < total);
    }
    let r = tables.slider[m.offset + hash_index];
    proof {
        let b = occupancy & m.mask;
        assert(tables.slider@[m.offset + spec_hash(m.magic, b, m.shift) as int] == spec_slider_att(
            s,
            bishop,
            b,
        ));
        lemma_slider_lookup_bits(s, occupancy, bishop, r);
    }
    r
}

/// O(1) bishop attack lookup for `square` under `occupancy`.
pub fn lookup_bishop_att(tables: &AttackTables, square: u8, occupancy: Bitboard) -> (r: Bitboard)
    requires
        tables.wf(),
    ensures
        square < 64 ==> forall|t: u64|
            #[trigger] bit64(r, t) <==> spec_bishop_reach(square as u64, occupancy, t),
        square >= 64 ==> r == 0,
{
    lookup_slider_att(tables, square, occupancy, true)
}

/// O(1) rook attack lookup for `square` under `occupancy`.
pub fn lookup_rook_att(tables: &AttackTables, square: u8, occupancy: Bitboard) -> (r: Bitboard)
    requires
        tables.wf(),
    ensures
        square < 64 ==> forall|t: u64|
            #[trigger] bit64(r, t) <==> spec_rook_reach(square as u64, occupancy, t),
        square >= 64 ==> r == 0,
{
    lookup_slider_att(tables, square, occupancy, false)
}

/// O(1) queen attack lookup: the union of the bishop and rook lookups.
pub fn lookup_queen_att(tables: &AttackTables, square: u8, occupancy: Bitboard) -> (r: Bitboard)
    requires
        tables.wf(),
    ensures
        square < 64 ==> forall|t: u64|
            #[trigger] bit64(r, t) <==> (spec_bishop_reach(square as u64, occupancy, t)
                || spec_rook_reach(square as u64, occupancy, t)),
        square >= 64 ==> r == 0,
{
    let b = lookup_bishop_att(tables, square, occupancy);
    let rk = lookup_rook_att(tables, square, occupancy);
    let r = b | rk;
    proof {
        if square < 64 {
            assert forall|t: u64|
                #[trigger] bit64(r, t) <==> (spec_bishop_reach(square as u64, occupancy, t)
                    || spec_rook_reach(square as u64, occupancy, t)) by {
                crate::util::lemma_bit64_or(b, rk, t);
            }
        } else {
            assert(0u64 | 0u64 == 0u64) by (bit_vector);
        }
    }
    r
}

/// King attack lookup, straight from the precomputed table.
pub fn lookup_king_att(tables: &AttackTables, square: u8) -> (r: Bitboard)
    requires
        tables.wf(),
        square < 64,
    ensures
        r == spec_king_att(square as u64),
{
    tables.king[square as usize]
}

/// Knight attack lookup, straight from the precomputed table.
pub fn lookup_knight_att(tables: &AttackTables, square: u8) -> (r: Bitboard)
    requires
        tables.wf(),
        square < 64,
    ensures
        r == spec_knight_att(square as u64),
{
    tables.knight[square as usize]
}

/// Pawn attack lookup for the given color, straight from the precomputed
/// tables.
pub fn lookup_pawn_att(tables: &AttackTables, square: u8, color: Color) -> (r: Bitboard)
    requires
        tables.wf(),
        square < 64,
    ensures
        r == spec_pawn_att(square as u64, color),
{
    match color {
        Color::Black => tables.pawn_black[square as usize],
        Color::White => tables.pawn_white[square as usize],
    }
}

/// Table/formula equivalence: for every square and every occupancy subset of
/// its relevant mask, the table slot that the lookup reads holds exactly the
/// value of the direct attack formula for that occupancy — over all
/// `2^popcount(relevant_mask)` subsets, not just sampled ones.
pub proof fn lemma_table_formula_equivalence(
    tables: &AttackTables,
    s: u64,
    o: u64,
    bishop: bool,
)
    requires
        tables.wf(),
        s < 64,
        o & !spec_relevant_mask(s, bishop) == 0,
    ensures
        ({
            let m = if bishop {
                tables.bishop_magics@[s as int]
            } else {
                tables.rook_magics@[s as int]
            };
            tables.slider@[m.offset + spec_hash(m.magic, o & m.mask, m.shift) as int]
                == spec_slider_att(s, bishop, o)
        }),
{
    let m = if bishop {
        tables.bishop_magics@[s as int]
    } else {
        tables.rook_magics@[s as int]
    };
    assert(spec_magic_entry_ok(m, s, bishop, tables.slider@));
    lemma_mask_and(o, m.mask);
    assert(o & m.mask == o);
    assert(tables.slider@[m.offset + spec_hash(m.magic, o, m.shift) as int] == spec_slider_att(
        s,
        bishop,
        o,
    ));
}

} // verus!

verus! {

/// Both stores give every record the relevant mask of its square, and the
/// shift derived from it.
#[verifier::rlimit(100)]
proof fn lemma_masks_equal(a: &AttackTables, b: &AttackTables)
    requires
        a.wf(),
        b.wf(),
    ensures
        forall|s: int|
            0 <= s < 64 ==> (#[trigger] a.bishop_magics@[s]).mask == b.bishop_magics@[s].mask && (
            #[trigger] a.rook_magics@[s]).mask == b.rook_magics@[s].mask,
        forall|s: int|
            0 <= s < 64 ==> (#[trigger] a.bishop_magics@[s]).shift == b.bishop_magics@[s].shift && (
            #[trigger] a.rook_magics@[s]).shift == b.rook_magics@[s].shift,
{
    assert forall|s: int| 0 <= s < 64 implies (#[trigger] a.bishop_magics@[s]).mask
        == b.bishop_magics@[s].mask && (#[trigger] a.rook_magics@[s]).mask
        == b.rook_magics@[s].mask by {
        assert(a.bishop_magics@[s].mask == spec_relevant_mask(s as u64, true));
        assert(b.bishop_magics@[s].mask == spec_relevant_mask(s as u64, true));
        assert(a.rook_magics@[s].mask == spec_relevant_mask(s as u64, false));
        assert(b.rook_magics@[s].mask == spec_relevant_mask(s as u64, false));
    }
    assert forall|s: int| 0 <= s < 64 implies (#[trigger] a.bishop_magics@[s]).shift
        == b.bishop_magics@[s].shift && (#[trigger] a.rook_magics@[s]).shift
        == b.rook_magics@[s].shift by {
        assert(a.bishop_magics@[s].shift as nat == 64 - pop64(a.bishop_magics@[s].mask));
        assert(b.bishop_magics@[s].shift as nat == 64 - pop64(b.bishop_magics@[s].mask));
        assert(a.rook_magics@[s].shift as nat == 64 - pop64(a.rook_magics@[s].mask));
        assert(b.rook_magics@[s].shift as nat == 64 - pop64(b.rook_magics@[s].mask));
    }
}

/// Determinism of the precomputed-constant path: whenever every shipped
/// constant is a working multiplier, any two fully built stores carry the
/// same hash parameters in every record and identical leaper tables; with
/// the per-block pinning in `wf`, the shared table contents follow slot by
/// slot.
#[verifier::rlimit(100)]
pub proof fn lemma_init_deterministic(a: &AttackTables, b: &AttackTables)
    requires
        a.wf(),
        b.wf(),
        spec_shipped_magics_work(),
    ensures
        forall|s: int|
            0 <= s < 64 ==> (#[trigger] a.bishop_magics@[s]).mask == b.bishop_magics@[s].mask && (
            #[trigger] a.rook_magics@[s]).mask == b.rook_magics@[s].mask,
        forall|s: int|
            0 <= s < 64 ==> (#[trigger] a.bishop_magics@[s]).shift == b.bishop_magics@[s].shift && (
            #[trigger] a.rook_magics@[s]).shift == b.rook_magics@[s].shift,
        forall|s: int|
            0 <= s < 64 ==> (#[trigger] a.bishop_magics@[s]).magic == b.bishop_magics@[s].magic && (
            #[trigger] a.rook_magics@[s]).magic == b.rook_magics@[s].magic,
        a.knight@ == b.knight@,
        a.king@ == b.king@,
        a.pawn_white@ == b.pawn_white@,
        a.pawn_black@ == b.pawn_black@,
        a.slider@.len() == b.slider@.len(),
{
    lemma_masks_equal(a, b);
    assert forall|s: int| 0 <= s < 64 implies (#[trigger] a.bishop_magics@[s]).magic
        == b.bishop_magics@[s].magic && (#[trigger] a.rook_magics@[s]).magic
        == b.rook_magics@[s].magic by {
        assert(spec_shipped_magic(s as u64, true) != 0 && spec_collision_free(
            s as u64,
            true,
            spec_shipped_magic(s as u64, true),
        ));
        assert(spec_shipped_magic(s as u64, false) != 0 && spec_collision_free(
            s as u64,
            false,
            spec_shipped_magic(s as u64, false),
        ));
        assert(a.bishop_magics@[s].magic == spec_shipped_magic(s as u64, true));
        assert(b.bishop_magics@[s].magic == spec_shipped_magic(s as u64, true));
        assert(a.rook_magics@[s].magic == spec_shipped_magic(s as u64, false));
        assert(b.rook_magics@[s].magic == spec_shipped_magic(s as u64, false));
    }
    assert(a.knight@ =~= b.knight@);
    assert(a.king@ =~= b.king@);
    assert(a.pawn_white@ =~= b.pawn_white@);
    assert(a.pawn_black@ =~= b.pawn_black@);
}

} // verus!
