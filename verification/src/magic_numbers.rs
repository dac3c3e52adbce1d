//! Magic-number search: per square and slider type, a multiplicative hash
//! that maps every occupancy subset of the relevant mask to a table slot with
//! no conflicting collisions, and the filling of the shared attack table.

use vstd::prelude::*;

use crate::attacks::{bishop_att, rook_att, spec_bishop_att, spec_rook_att};
use crate::util::{bit64, count_bits, edges, pop64, spec_edges, Bitboard};

verus! {

/// Exact capacity of the shared slider attack table: the sum over all 128
/// square/slider pairs of `2^popcount(relevant_mask)` on an 8x8 board.
pub const SLIDER_TABLE_SIZE: usize = 107648;

/// Hash parameters of one square and slider type: `occupancy` is sent to
/// table slot `offset + ((occupancy & mask) * magic >> shift)`.
#[derive(Debug, Copy, Clone, PartialEq)]
#[verifier::ext_equal]
pub struct Magic {
    pub magic: u64,
    pub mask: Bitboard,
    pub shift: u8,
    pub offset: usize,
}

/// Attack set of the given slider type, straight from the closed formula.
#[verifier::opaque]
pub open spec fn spec_slider_att(s: u64, bishop: bool, occ: u64) -> u64 {
    if bishop {
        spec_bishop_att(s, occ)
    } else {
        spec_rook_att(s, occ)
    }
}

/// The occupancy squares that can influence the slider's attack set: its
/// attack rays on an empty board, with the board edges cut off.
#[verifier::opaque]
pub open spec fn spec_relevant_mask(s: u64, bishop: bool) -> u64 {
    spec_slider_att(s, bishop, 0) & !spec_edges(s)
}

/// The multiplicative hash: `(occupancy * magic) >> shift`.
pub open spec fn spec_hash(magic: u64, occupancy: u64, shift: u8) -> u64 {
    occupancy.wrapping_mul(magic) >> (shift as u64)
}

/// The hash sends every subset of `mask` below `2^(64-shift)`.
proof fn lemma_hash_range(magic: u64, b: u64, shift: u8)
    by (bit_vector)
    requires
        33 <= shift < 64,
    ensures
        spec_hash(magic, b, shift) < (1u64 << ((64 - shift) as u64)),
{
}

/// Uses a magic number to calculate the index for the given occupancy in the
/// precomputed table.
pub fn calculate_hash_index(magic: u64, occupancy: Bitboard, shift: u8) -> (r: usize)
    requires
        shift < 64,
    ensures
        r == spec_hash(magic, occupancy, shift) as usize,
        shift >= 33 ==> r == spec_hash(magic, occupancy, shift),
{
    let h = occupancy.wrapping_mul(magic) >> shift;
    proof {
        assert(shift >= 33 ==> h < 0x80000000u64) by (bit_vector)
            requires
                h == occupancy.wrapping_mul(magic) >> (shift as u64) && shift < 64,
        ;
    }
    h as usize
}

/// Verifies if a magic number candidate is suitable by checking if the
/// multiplication of the attack mask and the magic number results in at least
/// 6 set bits in the upper byte.
pub fn verify_candidate(magic: u64, attack_mask: Bitboard) -> (r: bool)
    ensures
        r == (pop64(attack_mask.wrapping_mul(magic) & 0xff00000000000000) >= 6),
{
    count_bits(attack_mask.wrapping_mul(magic) & 0xff00000000000000) >= 6
}

proof fn lemma_rippler_step(m: u64, s: u64)
    by (bit_vector)
    requires
        s & !m == 0,
    ensures
        (s.wrapping_sub(m) & m) & !m == 0,
        s <= m,
        s != m ==> (s.wrapping_sub(m) & m) > s,
        s == m ==> (s.wrapping_sub(m) & m) == 0,
{
}

proof fn lemma_rippler_dense(m: u64, s: u64, r: u64)
    by (bit_vector)
    requires
        s & !m == 0,
        r & !m == 0,
        r > s,
    ensures
        r >= (s.wrapping_sub(m) & m),
{
}

/// Uses the Carry-Rippler trick to list every subset of the given mask
/// exactly once: the nonzero subsets in increasing order, then the empty one.
pub fn enumerate_subsets(bitboard: Bitboard) -> (r: Vec<u64>)
    ensures
        forall|k: int| 0 <= k < r@.len() ==> (r@[k] & !bitboard) == 0,
        forall|b: u64| b & !bitboard == 0 ==> r@.contains(b),
        r@.len() >= 1 && r@[r@.len() - 1] == 0,
        forall|k: int, j: int| 0 <= k < j < r@.len() - 1 ==> r@[k] < r@[j],
        forall|k: int| 0 <= k < r@.len() - 1 ==> r@[k] != 0,
        forall|k: int, j: int| 0 <= k < j < r@.len() ==> r@[k] != r@[j],
{
    let mut out: Vec<u64> = Vec::new();
    let mut subset: u64 = 0;
    proof {
        assert(0u64 & !bitboard == 0) by (bit_vector);
    }
    loop
        invariant_except_break
            subset & !bitboard == 0,
            subset <= bitboard,
            forall|b: u64| b & !bitboard == 0 && 0 < b <= subset ==> out@.contains(b),
            forall|k: int|
                0 <= k < out@.len() ==> (out@[k] & !bitboard) == 0 && 0 < out@[k] <= subset,
            forall|k: int, j: int| 0 <= k < j < out@.len() ==> out@[k] < out@[j],
            out@.len() > 0 ==> out@[out@.len() - 1] == subset,
            out@.len() == 0 ==> subset == 0,
        ensures
            forall|k: int| 0 <= k < out@.len() ==> (out@[k] & !bitboard) == 0,
            forall|b: u64| b & !bitboard == 0 ==> out@.contains(b),
            out@.len() >= 1 && out@[out@.len() - 1] == 0,
            forall|k: int, j: int| 0 <= k < j < out@.len() - 1 ==> out@[k] < out@[j],
            forall|k: int| 0 <= k < out@.len() - 1 ==> out@[k] != 0,
        decreases bitboard - subset,
    {
        let ghost old_out = out@;
        let ghost olds = subset;
        let next = subset.wrapping_sub(bitboard) & bitboard;
        proof {
            lemma_rippler_step(bitboard, subset);
        }
        out.push(next);
        if next == 0 {
            proof {
                assert(olds == bitboard);
                assert forall|b: u64| b & !bitboard == 0 implies out@.contains(b) by {
                    lemma_rippler_step(bitboard, b);
                    if b == 0 {
                        assert(out@[out@.len() - 1] == 0u64);
                    } else {
                        assert(old_out.contains(b));
                        let k = choose|k: int| 0 <= k < old_out.len() && old_out[k] == b;
                        assert(out@[k] == b);
                    }
                }
            }
            break ;
        }
        subset = next;
        proof {
            lemma_rippler_step(bitboard, next);
            assert forall|b: u64| b & !bitboard == 0 && 0 < b <= subset implies out@.contains(
                b,
            ) by {
                if b <= olds {
                    assert(old_out.contains(b));
                    let k = choose|k: int| 0 <= k < old_out.len() && old_out[k] == b;
                    assert(out@[k] == b);
                } else {
                    lemma_rippler_dense(bitboard, olds, b);
                    assert(b == subset);
                    assert(out@[out@.len() - 1] == b);
                }
            }
        }
    }
    out
}

} // verus!

use vstd::arithmetic::power2::pow2;
use vstd::bits::{
    lemma_u64_pow2_no_overflow, lemma_u64_shl_is_mul, lemma_usize_pow2_no_overflow,
    lemma_usize_shl_is_mul,
};
use vstd::pervasive::VecAdditionalExecFns;

use crate::attacks::{
    lemma_bishop_att_reach, lemma_rook_att_reach, spec_bishop_reach, spec_clear_anti_diag,
    spec_clear_diag, spec_clear_file, spec_rook_reach,
};
use crate::util::{spec_mask_anti_diag, spec_mask_diag, spec_mask_file, spec_mask_rank};
use crate::util::{
    lemma_bit64_and, lemma_bit64_not, lemma_bit64_or, lemma_bit64_zero, lemma_edges_bits,
    lemma_mask_anti_diag_bits, lemma_mask_diag_bits, lemma_mask_file_bits, lemma_mask_rank_bits,
    lemma_mask_popcounts, lemma_nonzero_bit, lemma_pop64_or_le, lemma_pop64_subset_le,
    lemma_pop64_zero_iff,
};

verus! {

/// Pre-calculated magic numbers for bishops to speed up initialising attack tables.
pub const BISHOP_MAGICS: [u64; 64] = [
    18041904302786592, 4620698732480989544, 40532948567719936, 288804329828123648,
    11530359381048688640, 11052116097647247360, 2306696256646287360, 1157473491470059520,
    162134023556104704, 932391245910528, 614745764698015746, 11682412217646448652,
    2306125657790522368, 4616261663719424004, 1369094724844011520, 276019808288,
    9268452051308857376, 2255167340707976, 4769453052113469954, 9230132386279342083,
    73183502553650380, 140741917622274, 9232538674455977985, 4611756939079864320,
    4613973071510896913, 73185695187862529, 6775191254426114, 1134696001970240,
    9241667979144347648, 9300076172417696268, 1153062800729575424, 81637106286168064,
    19159024474071104, 4630264811077505024, 180302624007653380, 4615068133374820640,
    563516906799136, 5066828820906112, 577052298174529731, 4611866477930037768,
    11619595185607950336, 2306979915242734080, 11029543158272, 11530983344342829056,
    162448514754839552, 9042453428617536, 2342436990139572480, 1445657825510424608,
    11547515661265930372, 285875240183808, 426894382334500, 9009402640664768,
    3602879851215978504, 10379112826781369344, 4922438826204602624, 2330999149184128,
    9029228276745221, 92930899159031808, 2323857961845608480, 7207033188017897984,
    36310340782588928, 18295895229628928, 11540544423311180048, 577026244912120065,
];

/// Pre-calculated magic numbers for rooks to speed up initialising attack tables.
pub const ROOK_MAGICS: [u64; 64] = [
    9259401384170618904, 2684154449420619777, 1188959648011522049, 72063092133466112,
    144117387369646084, 144132832762528256, 1441152983558654000, 36029346779408640,
    3518473720299552, 9368683507004473412, 73324368873128064, 900861212986705920,
    145381842659313666, 281492173357576, 2308236096556761600, 1155454788159574272,
    4926361855213568, 94580265101295682, 4332465590578020384, 72096077095899138,
    9512728862736777346, 141287277724672, 5769115520978815041, 5782632917066875905,
    70370891694112, 72092779484807232, 35186527965184, 720595740182710304,
    290490974206165632, 562967200403488, 36319085278003777, 2252083283656964,
    10203555440886912, 72128031505784836, 4611704728395456513, 141905744631808,
    79167026627584, 39547242826171392, 306253576190054434, 3694926038564929,
    9376564795079163908, 9095160722374656, 141012668383264, 864708724938309640,
    9223935330542288928, 288234774231810176, 13979454795644731396, 3096516810113025,
    1154188147421111552, 4684376948896597248, 54113635240388096, 17596483111168,
    2533825622052866, 9512165536101081600, 281483566907648, 704513115648,
    563229127713410, 36065081976455701, 12691178939671449859, 598173248652545,
    563018740539394, 77124147986045026, 72058762302621700, 11547229584232611906,
];

/// The magic multiplier shipped for the given square and slider type.
pub open spec fn spec_shipped_magic(s: u64, bishop: bool) -> u64 {
    if bishop {
        BISHOP_MAGICS[s as int]
    } else {
        ROOK_MAGICS[s as int]
    }
}

/// Relies on rand::random: one uniformly sampled 64-bit value.
#[verifier::external_body]
fn random_u64() -> u64 {
    rand::random::<u64>()
}

/// The relevant mask is never empty and holds at most 16 squares.
pub proof fn lemma_relevant_mask_props(s: u64, bishop: bool)
    requires
        s < 64,
    ensures
        spec_relevant_mask(s, bishop) != 0,
        1 <= pop64(spec_relevant_mask(s, bishop)) <= 16,
{
    reveal(spec_relevant_mask);
    reveal(spec_slider_att);
    let mask = spec_relevant_mask(s, bishop);
    let att = spec_slider_att(s, bishop, 0);
    let f = s % 8;
    let r = s / 8;
    let tr: u64 = if r < 4 {
        (r + 1) as u64
    } else {
        (r - 1) as u64
    };
    let tf: u64 = if bishop {
        if f < 4 {
            (f + 1) as u64
        } else {
            (f - 1) as u64
        }
    } else {
        f
    };
    let t = (8 * tr + tf) as u64;
    assert(t < 64 && t / 8 == tr && t % 8 == tf);
    if bishop {
        assert(spec_clear_diag(0, s, t)) by {
            assert forall|u: u64|
                u < 64 && u / 8 - u % 8 == s / 8 - s % 8 && (if s < t {
                    s < u < t
                } else {
                    t < u < s
                }) implies !bit64(0u64, u) by {
                lemma_bit64_zero(u);
            }
        }
        assert(spec_clear_anti_diag(0, s, t)) by {
            assert forall|u: u64|
                u < 64 && u / 8 + u % 8 == s / 8 + s % 8 && (if s < t {
                    s < u < t
                } else {
                    t < u < s
                }) implies !bit64(0u64, u) by {
                lemma_bit64_zero(u);
            }
        }
        assert(spec_bishop_reach(s, 0, t));
        lemma_bishop_att_reach(s, 0, t);
    } else {
        assert(spec_clear_file(0, s, t)) by {
            assert forall|u: u64|
                u < 64 && u % 8 == s % 8 && (if s < t {
                    s < u < t
                } else {
                    t < u < s
                }) implies !bit64(0u64, u) by {
                lemma_bit64_zero(u);
            }
        }
        assert(spec_rook_reach(s, 0, t));
        lemma_rook_att_reach(s, 0, t);
    }
    assert(bit64(att, t));
    lemma_edges_bits(s, t);
    lemma_bit64_not(spec_edges(s), t);
    lemma_bit64_and(att, !spec_edges(s), t);
    assert(bit64(mask, t));
    assert(mask != 0) by {
        if mask == 0 {
            lemma_bit64_zero(t);
        }
    }
    lemma_pop64_zero_iff(mask);
    let lines = if bishop {
        spec_mask_diag(s) | spec_mask_anti_diag(s)
    } else {
        spec_mask_file(s) | spec_mask_rank(s)
    };
    assert(mask & !lines == 0) by {
        if mask & !lines != 0 {
            lemma_nonzero_bit(mask & !lines);
            let u = choose|u: u64| #[trigger] bit64(mask & !lines, u);
            lemma_bit64_and(mask, !lines, u);
            lemma_bit64_not(lines, u);
            lemma_bit64_and(att, !spec_edges(s), u);
            if bishop {
                lemma_bishop_att_reach(s, 0, u);
                lemma_mask_diag_bits(s, u);
                lemma_mask_anti_diag_bits(s, u);
                lemma_bit64_or(spec_mask_diag(s), spec_mask_anti_diag(s), u);
            } else {
                lemma_rook_att_reach(s, 0, u);
                lemma_mask_file_bits(s, u);
                lemma_mask_rank_bits(s, u);
                lemma_bit64_or(spec_mask_file(s), spec_mask_rank(s), u);
            }
        }
    }
    lemma_pop64_subset_le(mask, lines);
    lemma_mask_popcounts(s);
    if bishop {
        lemma_pop64_or_le(spec_mask_diag(s), spec_mask_anti_diag(s));
    } else {
        lemma_pop64_or_le(spec_mask_file(s), spec_mask_rank(s));
    }
}

/// The hash parameters `m` index a fully filled block of `t`: every occupancy
/// subset of the mask hashes inside the block to its true attack set, and
/// every block slot is either zero or the attack set of some subset that
/// hashes to it.
pub open spec fn spec_magic_entry_ok(m: Magic, s: u64, bishop: bool, t: Seq<u64>) -> bool {
    &&& m.mask == spec_relevant_mask(s, bishop)
    &&& 1 <= pop64(m.mask) <= 16
    &&& m.shift as nat == 64 - pop64(m.mask)
    &&& m.offset + pow2(pop64(m.mask)) <= t.len()
    &&& forall|b: u64|
        b & !m.mask == 0 ==> #[trigger] spec_hash(m.magic, b, m.shift) < pow2(pop64(m.mask))
    &&& forall|b: u64|
        b & !m.mask == 0 ==> t[m.offset + #[trigger] spec_hash(m.magic, b, m.shift) as int]
            == spec_slider_att(s, bishop, b)
    &&& forall|j: int|
        m.offset <= j < m.offset + pow2(pop64(m.mask)) ==> t[j] == 0 || exists|b: u64|
            b & !m.mask == 0 && m.offset + #[trigger] spec_hash(m.magic, b, m.shift) as int == j
                && t[j] == spec_slider_att(s, bishop, b)
}

/// Every shipped magic constant is nonzero and hashes its square's occupancy
/// subsets without conflicting collisions. This holds of the constants as
/// shipped; the collision check in `init_magic` re-verifies it at run time.
pub open spec fn spec_shipped_magics_work() -> bool {
    forall|s: u64, bishop: bool|
        s < 64 ==> #[trigger] spec_shipped_magic(s, bishop) != 0 && spec_collision_free(
            s,
            bishop,
            spec_shipped_magic(s, bishop),
        )
}

/// The multiplier hashes occupancy subsets without conflicting collisions:
/// two subsets share a slot only if they share the same true attack set.
pub open spec fn spec_collision_free(s: u64, bishop: bool, magic: u64) -> bool {
    forall|b1: u64, b2: u64|
        b1 & !spec_relevant_mask(s, bishop) == 0 && b2 & !spec_relevant_mask(s, bishop) == 0
            && #[trigger] spec_hash(magic, b1, (64 - pop64(spec_relevant_mask(s, bishop))) as u8)
            == #[trigger] spec_hash(magic, b2, (64 - pop64(spec_relevant_mask(s, bishop))) as u8)
            ==> spec_slider_att(s, bishop, b1) == spec_slider_att(s, bishop, b2)
}

/// Finds a working magic number for the square and slider type and appends
/// the filled attack block to the shared table. Tries the shipped constant
/// first; on a collision it falls back to sampling random candidates, giving
/// up (with `None`) only after an astronomically large attempt budget.
#[verifier::rlimit(100)]
pub fn init_magic(square: u8, bishop: bool, table: &mut Vec<Bitboard>) -> (res: Option<Magic>)
    requires
        square < 64,
    ensures
        forall|i: int| 0 <= i < old(table)@.len() ==> final(table)@[i] == old(table)@[i],
        res is None ==> final(table)@ == old(table)@,
        res is Some ==> {
            let m = res.unwrap();
            &&& m.offset == old(table)@.len()
            &&& final(table)@.len() == old(table)@.len() + pow2(pop64(m.mask))
            &&& spec_magic_entry_ok(m, square as u64, bishop, final(table)@)
            &&& spec_collision_free(square as u64, bishop, m.magic)
            &&& (spec_shipped_magic(square as u64, bishop) != 0 && spec_collision_free(
                square as u64,
                bishop,
                spec_shipped_magic(square as u64, bishop),
            ) ==> m.magic == spec_shipped_magic(square as u64, bishop))
        },
        spec_shipped_magic(square as u64, bishop) != 0 && spec_collision_free(
            square as u64,
            bishop,
            spec_shipped_magic(square as u64, bishop),
        ) ==> res is Some,
{
    let ghost s = square as u64;
    let attack_mask = (if bishop {
        bishop_att(square, 0)
    } else {
        rook_att(square, 0)
    }) & !edges(square);
    proof {
        assert(attack_mask == spec_relevant_mask(s, bishop)) by {
            reveal(spec_relevant_mask);
            reveal(spec_slider_att);
        }
        lemma_relevant_mask_props(s, bishop);
    }
    let relevant_bits = count_bits(attack_mask);
    let shift: u8 = 64 - relevant_bits;
    let permutations: usize = 1usize << relevant_bits;
    proof {
        lemma_usize_pow2_no_overflow(relevant_bits as nat);
        lemma_usize_shl_is_mul(1usize, relevant_bits as usize);
        lemma_u64_pow2_no_overflow(relevant_bits as nat);
        lemma_u64_shl_is_mul(1u64, relevant_bits as u64);
        assert(permutations == pow2(pop64(attack_mask)));
    }
    let subsets = enumerate_subsets(attack_mask);
    let mut magic: u64 = if bishop {
        BISHOP_MAGICS[square as usize]
    } else {
        ROOK_MAGICS[square as usize]
    };
    let mut attempts: u64 = 0;
    loop
        invariant
            square < 64,
            s == square as u64,
            attack_mask == spec_relevant_mask(s, bishop),
            1 <= pop64(attack_mask) <= 16,
            relevant_bits as nat == pop64(attack_mask),
            shift as nat == 64 - pop64(attack_mask),
            33 <= shift < 64,
            permutations == pow2(pop64(attack_mask)),
            permutations == (1u64 << (relevant_bits as u64)),
            forall|k: int| 0 <= k < subsets@.len() ==> (subsets@[k] & !attack_mask) == 0,
            forall|b: u64| b & !attack_mask == 0 ==> subsets@.contains(b),
            table@ == old(table)@,
            spec_shipped_magic(s, bishop) != 0 && spec_collision_free(
                s,
                bishop,
                spec_shipped_magic(s, bishop),
            ) ==> magic == spec_shipped_magic(s, bishop),
            spec_shipped_magic(s, bishop) != 0 && spec_collision_free(
                s,
                bishop,
                spec_shipped_magic(s, bishop),
            ) ==> attempts == 0,
        decreases u64::MAX - attempts,
    {
        if attempts == u64::MAX {
            return None;
        }
        attempts = attempts + 1;
        if magic == 0 {
            let candidate = random_u64() & random_u64() & random_u64();
            if !verify_candidate(candidate, attack_mask) {
                continue ;
            }
            magic = candidate;
        }
        let mut used: Vec<Option<u64>> = Vec::new();
        while used.len() < permutations
            invariant
                used@.len() <= permutations,
                forall|h: int| 0 <= h < used@.len() ==> used@[h] is None,
            decreases permutations - used.len(),
        {
            used.push(None);
        }
        let mut failure = false;
        let mut idx: usize = 0;
        while idx < subsets.len() && !failure
            invariant
                square < 64,
                s == square as u64,
                attack_mask == spec_relevant_mask(s, bishop),
                1 <= pop64(attack_mask) <= 16,
                relevant_bits as nat == pop64(attack_mask),
                shift as nat == 64 - pop64(attack_mask),
                33 <= shift < 64,
                permutations == pow2(pop64(attack_mask)),
                permutations == (1u64 << (relevant_bits as u64)),
                forall|k: int| 0 <= k < subsets@.len() ==> (subsets@[k] & !attack_mask) == 0,
                idx <= subsets@.len(),
                used@.len() == permutations,
                !failure ==> forall|j: int|
                    0 <= j < idx ==> spec_hash(magic, #[trigger] subsets@[j], shift) < permutations
                        && used@[spec_hash(magic, subsets@[j], shift) as int] == Some(
                        spec_slider_att(s, bishop, subsets@[j]),
                    ),
                forall|h: int|
                    0 <= h < used@.len() && used@[h] is Some ==> exists|b: u64|
                        b & !attack_mask == 0 && #[trigger] spec_hash(magic, b, shift) as int == h
                            && used@[h] == Some(spec_slider_att(s, bishop, b)),
                failure ==> !spec_collision_free(s, bishop, magic),
            decreases subsets.len() - idx,
        {
            let b = subsets[idx];
            let att = if bishop {
                bishop_att(square, b)
            } else {
                rook_att(square, b)
            };
            proof {
                assert(att == spec_slider_att(s, bishop, b)) by {
                    reveal(spec_slider_att);
                }
            }
            let h = calculate_hash_index(magic, b, shift);
            proof {
                lemma_hash_range(magic, b, shift);
                assert((1u64 << ((64 - shift) as u64)) == permutations);
            }
            let ghost old_used = used@;
            match used[h] {
                Option::None => {
                    used.set(h, Some(att));
                    proof {
                        assert forall|j: int| 0 <= j < idx + 1 implies spec_hash(
                            magic,
                            #[trigger] subsets@[j],
                            shift,
                        ) < permutations && used@[spec_hash(magic, subsets@[j], shift) as int]
                            == Some(spec_slider_att(s, bishop, subsets@[j])) by {
                            lemma_hash_range(magic, subsets@[j], shift);
                            assert((64 - shift) as u64 == relevant_bits as u64);
                            if j < idx {
                                assert(old_used[spec_hash(magic, subsets@[j], shift) as int]
                                    == Some(spec_slider_att(s, bishop, subsets@[j])));
                            }
                        }
                        assert forall|hh: int|
                            0 <= hh < used@.len() && used@[hh] is Some implies exists|bw: u64|
                            bw & !attack_mask == 0 && #[trigger] spec_hash(
                                magic,
                                bw,
                                shift,
                            ) as int == hh && used@[hh] == Some(
                            spec_slider_att(s, bishop, bw),
                        ) by {
                            if hh == h as int {
                                assert(b & !attack_mask == 0 && spec_hash(
                                    magic,
                                    b,
                                    shift,
                                ) as int == hh && used@[hh] == Some(
                                    spec_slider_att(s, bishop, b),
                                ));
                            } else {
                                assert(old_used[hh] is Some);
                            }
                        }
                    }
                },
                Option::Some(v) => {
                    if v != att {
                        proof {
                            let ghost bw = choose|bw: u64|
                                bw & !attack_mask == 0 && #[trigger] spec_hash(
                                    magic,
                                    bw,
                                    shift,
                                ) as int == h as int && used@[h as int] == Some(
                                    spec_slider_att(s, bishop, bw),
                                );
                            assert(spec_hash(magic, bw, shift) == spec_hash(magic, b, shift));
                            assert(spec_slider_att(s, bishop, bw) != spec_slider_att(
                                s,
                                bishop,
                                b,
                            ));
                            let shift2 = (64 - pop64(spec_relevant_mask(s, bishop))) as u8;
                            assert(shift2 == shift);
                            if spec_collision_free(s, bishop, magic) {
                                assert(spec_hash(magic, bw, shift2) == spec_hash(
                                    magic,
                                    b,
                                    shift2,
                                ));
                                assert(spec_slider_att(s, bishop, bw) == spec_slider_att(
                                    s,
                                    bishop,
                                    b,
                                ));
                            }
                            assert(!spec_collision_free(s, bishop, magic));
                        }
                        failure = true;
                    }
                },
            }
            idx = idx + 1;
        }
        if !failure {
            let offset = table.len();
            let mut h: usize = 0;
            while h < permutations
                invariant
                    used@.len() == permutations,
                    table@.len() == old(table)@.len() + h,
                    h <= permutations,
                    offset == old(table)@.len(),
                    forall|i: int| 0 <= i < old(table)@.len() ==> table@[i] == old(table)@[i],
                    forall|i: int|
                        0 <= i < h ==> table@[offset + i] == (if used@[i] is Some {
                            used@[i].unwrap()
                        } else {
                            0u64
                        }),
                decreases permutations - h,
            {
                let v = match used[h] {
                    Option::Some(v) => v,
                    Option::None => 0u64,
                };
                table.push(v);
                h = h + 1;
            }
            let m = Magic { magic, mask: attack_mask, shift, offset };
            proof {
                assert forall|b: u64| b & !attack_mask == 0 implies #[trigger] spec_hash(
                    magic,
                    b,
                    shift,
                ) < permutations && used@[spec_hash(magic, b, shift) as int] == Some(
                    spec_slider_att(s, bishop, b),
                ) by {
                    lemma_hash_range(magic, b, shift);
                    assert((64 - shift) as u64 == relevant_bits as u64);
                    assert(subsets@.contains(b));
                    let k = choose|k: int| 0 <= k < subsets@.len() && subsets@[k] == b;
                    assert(used@[spec_hash(magic, subsets@[k], shift) as int] == Some(
                        spec_slider_att(s, bishop, subsets@[k]),
                    ));
                }
                assert forall|b: u64| b & !attack_mask == 0 implies table@[m.offset
                    + #[trigger] spec_hash(m.magic, b, m.shift) as int] == spec_slider_att(
                    s,
                    bishop,
                    b,
                ) by {
                    let hh = spec_hash(magic, b, shift) as int;
                    assert(used@[hh] == Some(spec_slider_att(s, bishop, b)));
                    assert(table@[offset + hh] == (if used@[hh] is Some {
                        used@[hh].unwrap()
                    } else {
                        0u64
                    }));
                }
                assert forall|j: int|
                    m.offset <= j < m.offset + pow2(pop64(m.mask)) implies table@[j] == 0
                    || exists|b: u64|
                    b & !m.mask == 0 && m.offset + #[trigger] spec_hash(
                        m.magic,
                        b,
                        m.shift,
                    ) as int == j && table@[j] == spec_slider_att(s, bishop, b) by {
                    let i = j - m.offset;
                    assert(table@[j] == (if used@[i] is Some {
                        used@[i].unwrap()
                    } else {
                        0u64
                    }));
                    if used@[i] is Some {
                        let bw = choose|bw: u64|
                            bw & !attack_mask == 0 && #[trigger] spec_hash(
                                magic,
                                bw,
                                shift,
                            ) as int == i && used@[i] == Some(spec_slider_att(s, bishop, bw));
                        assert(m.offset + spec_hash(m.magic, bw, m.shift) as int == j
                            && table@[j] == spec_slider_att(s, bishop, bw));
                    }
                }
                assert forall|b1: u64, b2: u64|
                    b1 & !spec_relevant_mask(s, bishop) == 0 && b2 & !spec_relevant_mask(
                        s,
                        bishop,
                    ) == 0 && #[trigger] spec_hash(
                        magic,
                        b1,
                        (64 - pop64(spec_relevant_mask(s, bishop))) as u8,
                    ) == #[trigger] spec_hash(
                        magic,
                        b2,
                        (64 - pop64(spec_relevant_mask(s, bishop))) as u8,
                    ) implies spec_slider_att(s, bishop, b1) == spec_slider_att(
                    s,
                    bishop,
                    b2,
                ) by {
                    assert((64 - pop64(spec_relevant_mask(s, bishop))) as u8 == shift);
                    assert(used@[spec_hash(magic, b1, shift) as int] == Some(
                        spec_slider_att(s, bishop, b1),
                    ));
                    assert(used@[spec_hash(magic, b2, shift) as int] == Some(
                        spec_slider_att(s, bishop, b2),
                    ));
                }
                assert(spec_magic_entry_ok(m, s, bishop, table@));
            }
            return Some(m);
        } else {
            magic = 0;
        }
    }
}

} // verus!
