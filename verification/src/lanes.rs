//! A 64-bit word seen as four 16-bit lanes, lane 0 in the lowest bits.
//!
//! A board is two such words; these definitions and lemmas connect the word
//! operations that the board performs with what they do to each lane.
use vstd::prelude::*;
use vstd::arithmetic::power2::{pow2, lemma_pow2_unfold, lemma_pow2_pos, lemma2_to64};
use vstd::arithmetic::div_mod::{lemma_mod_breakdown, lemma_div_denominator};
use vstd::bits::{
    lemma_u16_shl_is_mul, lemma_u16_pow2_no_overflow, lemma_u32_shl_is_mul,
    lemma_u32_pow2_no_overflow,
};

verus! {

/// Lane `k` (0 to 3) of the word `w`.
pub open spec fn lane16(w: u64, k: int) -> u16 {
    if k == 0 {
        (w & 0xFFFF) as u16
    } else if k == 1 {
        ((w >> 16u64) & 0xFFFF) as u16
    } else if k == 2 {
        ((w >> 32u64) & 0xFFFF) as u16
    } else {
        ((w >> 48u64) & 0xFFFF) as u16
    }
}

/// The word whose lanes are `l0`, `l1`, `l2`, `l3`.
pub open spec fn pack16(l0: u16, l1: u16, l2: u16, l3: u16) -> u64 {
    (l0 as u64) | ((l1 as u64) << 16u64) | ((l2 as u64) << 32u64) | ((l3 as u64) << 48u64)
}

/// The eight lanes of the pair of words `(lo, hi)`: the lanes of `lo`, then those of `hi`.
pub open spec fn lanes_of(lo: u64, hi: u64) -> Seq<u16> {
    Seq::new(8, |x: int| if x < 4 { lane16(lo, x) } else { lane16(hi, x - 4) })
}

/// The lowest set bit of `l` on its own (zero when `l` is zero): `l & -l`.
pub open spec fn lowbit16(l: u16) -> u16 {
    l & ((!l + 1) as u16)
}

/// Bit `y` of the lane `l` is set (false for `y` outside 0 to 15).
pub open spec fn bit16(l: u16, y: int) -> bool {
    0 <= y < 16 && (l >> (y as u16)) & 1 == 1
}

/// Number of set bits of `x`.
pub open spec fn popcnt(x: nat) -> nat
    decreases x,
{
    if x == 0 {
        0
    } else {
        x % 2 + popcnt(x / 2)
    }
}

/// Lanes of a packed word are the lanes it was packed from.
pub proof fn lemma_pack_lanes(l0: u16, l1: u16, l2: u16, l3: u16)
    ensures
        lane16(pack16(l0, l1, l2, l3), 0) == l0,
        lane16(pack16(l0, l1, l2, l3), 1) == l1,
        lane16(pack16(l0, l1, l2, l3), 2) == l2,
        lane16(pack16(l0, l1, l2, l3), 3) == l3,
{
    let w = pack16(l0, l1, l2, l3);
    assert((w & 0xFFFF) as u16 == l0 && ((w >> 16u64) & 0xFFFF) as u16 == l1 && ((w >> 32u64)
        & 0xFFFF) as u16 == l2 && ((w >> 48u64) & 0xFFFF) as u16 == l3) by (bit_vector)
        requires
            w == (l0 as u64) | ((l1 as u64) << 16u64) | ((l2 as u64) << 32u64) | ((l3 as u64)
                << 48u64),
    ;
}

/// A word is determined by its four lanes.
pub proof fn lemma_lanes_determine(a: u64, b: u64)
    requires
        lane16(a, 0) == lane16(b, 0),
        lane16(a, 1) == lane16(b, 1),
        lane16(a, 2) == lane16(b, 2),
        lane16(a, 3) == lane16(b, 3),
    ensures
        a == b,
{
    assert(a == b) by (bit_vector)
        requires
            (a & 0xFFFF) as u16 == (b & 0xFFFF) as u16,
            ((a >> 16u64) & 0xFFFF) as u16 == ((b >> 16u64) & 0xFFFF) as u16,
            ((a >> 32u64) & 0xFFFF) as u16 == ((b >> 32u64) & 0xFFFF) as u16,
            ((a >> 48u64) & 0xFFFF) as u16 == ((b >> 48u64) & 0xFFFF) as u16,
    ;
}

/// A pair of words is determined by its eight lanes.
pub proof fn lemma_lanes_of_injective(lo1: u64, hi1: u64, lo2: u64, hi2: u64)
    requires
        lanes_of(lo1, hi1) == lanes_of(lo2, hi2),
    ensures
        lo1 == lo2,
        hi1 == hi2,
{
    let s1 = lanes_of(lo1, hi1);
    let s2 = lanes_of(lo2, hi2);
    assert(s1[0] == s2[0] && s1[1] == s2[1] && s1[2] == s2[2] && s1[3] == s2[3]);
    assert(s1[4] == s2[4] && s1[5] == s2[5] && s1[6] == s2[6] && s1[7] == s2[7]);
    lemma_lanes_determine(lo1, lo2);
    lemma_lanes_determine(hi1, hi2);
}

/// Bitwise operations on words act lane by lane.
pub proof fn lemma_lanes_bitwise(a: u64, b: u64)
    ensures
        forall|k: int|
            0 <= k < 4 ==> #[trigger] lane16(a & b, k) == lane16(a, k) & lane16(b, k),
        forall|k: int|
            0 <= k < 4 ==> #[trigger] lane16(a | b, k) == lane16(a, k) | lane16(b, k),
        forall|k: int|
            0 <= k < 4 ==> #[trigger] lane16(a ^ b, k) == lane16(a, k) ^ lane16(b, k),
        forall|k: int| 0 <= k < 4 ==> #[trigger] lane16(!a, k) == !lane16(a, k),
{
    assert(((a & b) & 0xFFFF) as u16 == ((a & 0xFFFF) as u16) & ((b & 0xFFFF) as u16)
        && (((a & b) >> 16u64) & 0xFFFF) as u16 == (((a >> 16u64) & 0xFFFF) as u16) & (((b
        >> 16u64) & 0xFFFF) as u16) && (((a & b) >> 32u64) & 0xFFFF) as u16 == (((a >> 32u64)
        & 0xFFFF) as u16) & (((b >> 32u64) & 0xFFFF) as u16) && (((a & b) >> 48u64) & 0xFFFF) as u16
        == (((a >> 48u64) & 0xFFFF) as u16) & (((b >> 48u64) & 0xFFFF) as u16)
        && ((a | b) & 0xFFFF) as u16 == ((a & 0xFFFF) as u16) | ((b & 0xFFFF) as u16)
        && (((a | b) >> 16u64) & 0xFFFF) as u16 == (((a >> 16u64) & 0xFFFF) as u16) | (((b
        >> 16u64) & 0xFFFF) as u16) && (((a | b) >> 32u64) & 0xFFFF) as u16 == (((a >> 32u64)
        & 0xFFFF) as u16) | (((b >> 32u64) & 0xFFFF) as u16) && (((a | b) >> 48u64) & 0xFFFF) as u16
        == (((a >> 48u64) & 0xFFFF) as u16) | (((b >> 48u64) & 0xFFFF) as u16)
        && ((a ^ b) & 0xFFFF) as u16 == ((a & 0xFFFF) as u16) ^ ((b & 0xFFFF) as u16)
        && (((a ^ b) >> 16u64) & 0xFFFF) as u16 == (((a >> 16u64) & 0xFFFF) as u16) ^ (((b
        >> 16u64) & 0xFFFF) as u16) && (((a ^ b) >> 32u64) & 0xFFFF) as u16 == (((a >> 32u64)
        & 0xFFFF) as u16) ^ (((b >> 32u64) & 0xFFFF) as u16) && (((a ^ b) >> 48u64) & 0xFFFF) as u16
        == (((a >> 48u64) & 0xFFFF) as u16) ^ (((b >> 48u64) & 0xFFFF) as u16)
        && ((!a) & 0xFFFF) as u16 == !((a & 0xFFFF) as u16) && (((!a) >> 16u64) & 0xFFFF) as u16
        == !(((a >> 16u64) & 0xFFFF) as u16) && (((!a) >> 32u64) & 0xFFFF) as u16 == !(((a
        >> 32u64) & 0xFFFF) as u16) && (((!a) >> 48u64) & 0xFFFF) as u16 == !(((a >> 48u64)
        & 0xFFFF) as u16)) by (bit_vector);
}

/// A word is zero exactly when its four lanes are.
pub proof fn lemma_zero_lanes(w: u64)
    ensures
        (w == 0) <==> (lane16(w, 0) == 0 && lane16(w, 1) == 0 && lane16(w, 2) == 0 && lane16(w, 3)
            == 0),
{
    assert((w == 0) <==> ((w & 0xFFFF) as u16 == 0 && ((w >> 16u64) & 0xFFFF) as u16 == 0 && ((w
        >> 32u64) & 0xFFFF) as u16 == 0 && ((w >> 48u64) & 0xFFFF) as u16 == 0)) by (bit_vector);
}

/// `lowbit16(l)` is the lowest set bit of `l`: a single bit that is set in `l`,
/// below which `l` has no set bit; and zero when `l` is zero.
pub proof fn lemma_lowbit16_is_lowest_set_bit(l: u16)
    ensures
        l == 0 ==> lowbit16(l) == 0,
        l != 0 ==> {
            let r = lowbit16(l);
            &&& r != 0
            &&& r & ((r - 1) as u16) == 0
            &&& l & r == r
            &&& l & ((r - 1) as u16) == 0
        },
{
    assert((l == 0 ==> l & ((!l + 1) as u16) == 0) && (l != 0 ==> {
        let r = l & ((!l + 1) as u16);
        &&& r != 0
        &&& r & ((r - 1) as u16) == 0
        &&& l & r == r
        &&& l & ((r - 1) as u16) == 0
    })) by (bit_vector);
}

/// The bits of `1 << y`: bit `y` alone.
pub proof fn lemma_bit16_single(y: u16)
    requires
        y < 16,
    ensures
        forall|j: int| #[trigger] bit16(1u16 << y, j) == (j == y as int),
{
    assert forall|j: int| #[trigger] bit16(1u16 << y, j) == (j == y as int) by {
        if 0 <= j < 16 {
            let jj = j as u16;
            assert((((1u16 << y) >> jj) & 1 == 1) == (jj == y)) by (bit_vector)
                requires
                    y < 16,
                    jj < 16,
            ;
        }
    }
}

/// Bitwise operations on lanes act bit by bit.
pub proof fn lemma_bit16_ops(a: u16, b: u16)
    ensures
        forall|j: int| #[trigger] bit16(a & b, j) == (bit16(a, j) && bit16(b, j)),
        forall|j: int| #[trigger] bit16(a | b, j) == (bit16(a, j) || bit16(b, j)),
        forall|j: int| #[trigger] bit16(a ^ b, j) == (bit16(a, j) != bit16(b, j)),
        forall|j: int| 0 <= j < 16 ==> #[trigger] bit16(!a, j) == !bit16(a, j),
{
    assert forall|j: int|
        #![trigger bit16(a & b, j)]
        #![trigger bit16(a | b, j)]
        #![trigger bit16(a ^ b, j)]
        #![trigger bit16(!a, j)]
        {
            &&& bit16(a & b, j) == (bit16(a, j) && bit16(b, j))
            &&& bit16(a | b, j) == (bit16(a, j) || bit16(b, j))
            &&& bit16(a ^ b, j) == (bit16(a, j) != bit16(b, j))
            &&& 0 <= j < 16 ==> bit16(!a, j) == !bit16(a, j)
        } by {
        if 0 <= j < 16 {
            let jj = j as u16;
            assert((((a & b) >> jj) & 1 == 1) == (((a >> jj) & 1 == 1) && ((b >> jj) & 1 == 1))
                && (((a | b) >> jj) & 1 == 1) == (((a >> jj) & 1 == 1) || ((b >> jj) & 1 == 1))
                && (((a ^ b) >> jj) & 1 == 1) == (((a >> jj) & 1 == 1) != ((b >> jj) & 1 == 1))
                && (((!a) >> jj) & 1 == 1) == !((a >> jj) & 1 == 1)) by (bit_vector)
                requires
                    jj < 16,
            ;
        }
    }
}

/// Shifting a lane by one moves each bit by one row.
pub proof fn lemma_bit16_shifts(a: u16)
    ensures
        forall|j: int|
            0 <= j < 16 ==> #[trigger] bit16(a << 1u16, j) == (j >= 1 && bit16(a, j - 1)),
        forall|j: int| 0 <= j < 16 ==> #[trigger] bit16(a >> 1u16, j) == bit16(a, j + 1),
{
    assert forall|j: int|
        #![trigger bit16(a << 1u16, j)]
        #![trigger bit16(a >> 1u16, j)]
        0 <= j < 16 implies bit16(a << 1u16, j) == (j >= 1 && bit16(a, j - 1)) && bit16(a >> 1u16, j) == bit16(
            a,
            j + 1,
        ) by {
        {
            let jj = j as u16;
            let ii = if jj >= 1 {
                (jj - 1) as u16
            } else {
                0u16
            };
            let kk = if jj < 15 {
                (jj + 1) as u16
            } else {
                0u16
            };
            assert((jj >= 1 ==> (((a << 1u16) >> jj) & 1 == 1) == ((a >> ii) & 1 == 1)) && (jj == 0
                ==> (((a << 1u16) >> jj) & 1 == 1) == false) && (jj < 15 ==> (((a >> 1u16) >> jj) & 1
                == 1) == ((a >> kk) & 1 == 1)) && (jj == 15 ==> (((a >> 1u16) >> jj) & 1 == 1)
                == false)) by (bit_vector)
                requires
                    jj < 16,
                    jj >= 1 ==> ii == jj - 1,
                    jj < 15 ==> kk == jj + 1,
            ;
        }
    }
}

/// A lane is determined by its bits.
pub proof fn lemma_bit16_ext(a: u16, b: u16)
    requires
        forall|j: int| 0 <= j < 16 ==> #[trigger] bit16(a, j) == bit16(b, j),
    ensures
        a == b,
{
    assert(bit16(a, 0) == bit16(b, 0) && bit16(a, 1) == bit16(b, 1) && bit16(a, 2) == bit16(b, 2)
        && bit16(a, 3) == bit16(b, 3));
    assert(bit16(a, 4) == bit16(b, 4) && bit16(a, 5) == bit16(b, 5) && bit16(a, 6) == bit16(b, 6)
        && bit16(a, 7) == bit16(b, 7));
    assert(bit16(a, 8) == bit16(b, 8) && bit16(a, 9) == bit16(b, 9) && bit16(a, 10) == bit16(b, 10)
        && bit16(a, 11) == bit16(b, 11));
    assert(bit16(a, 12) == bit16(b, 12) && bit16(a, 13) == bit16(b, 13) && bit16(a, 14) == bit16(
        b,
        14,
    ) && bit16(a, 15) == bit16(b, 15));
    assert(a == b) by (bit_vector)
        requires
            ((a >> 0u16) & 1 == 1) == ((b >> 0u16) & 1 == 1),
            ((a >> 1u16) & 1 == 1) == ((b >> 1u16) & 1 == 1),
            ((a >> 2u16) & 1 == 1) == ((b >> 2u16) & 1 == 1),
            ((a >> 3u16) & 1 == 1) == ((b >> 3u16) & 1 == 1),
            ((a >> 4u16) & 1 == 1) == ((b >> 4u16) & 1 == 1),
            ((a >> 5u16) & 1 == 1) == ((b >> 5u16) & 1 == 1),
            ((a >> 6u16) & 1 == 1) == ((b >> 6u16) & 1 == 1),
            ((a >> 7u16) & 1 == 1) == ((b >> 7u16) & 1 == 1),
            ((a >> 8u16) & 1 == 1) == ((b >> 8u16) & 1 == 1),
            ((a >> 9u16) & 1 == 1) == ((b >> 9u16) & 1 == 1),
            ((a >> 10u16) & 1 == 1) == ((b >> 10u16) & 1 == 1),
            ((a >> 11u16) & 1 == 1) == ((b >> 11u16) & 1 == 1),
            ((a >> 12u16) & 1 == 1) == ((b >> 12u16) & 1 == 1),
            ((a >> 13u16) & 1 == 1) == ((b >> 13u16) & 1 == 1),
            ((a >> 14u16) & 1 == 1) == ((b >> 14u16) & 1 == 1),
            ((a >> 15u16) & 1 == 1) == ((b >> 15u16) & 1 == 1),
    ;
}

/// A lane is zero exactly when none of its bits is set.
pub proof fn lemma_bit16_zero(a: u16)
    ensures
        (a == 0) <==> (forall|j: int| 0 <= j < 16 ==> !#[trigger] bit16(a, j)),
{
    assert forall|j: int| 0 <= j < 16 implies !#[trigger] bit16(0u16, j) by {
        let jj = j as u16;
        assert(((0u16 >> jj) & 1 == 1) == false) by (bit_vector);
    }
    if forall|j: int| 0 <= j < 16 ==> !#[trigger] bit16(a, j) {
        lemma_bit16_ext(a, 0u16);
    }
}

/// The lanes of a word with the single bit `16 * k + y` set: bit `y` of lane `k`.
pub proof fn lemma_lanes_single_bit(k: u64, y: u64, s: u64)
    requires
        k < 4,
        y < 16,
        s == 16 * k + y,
    ensures
        forall|j: int|
            0 <= j < 4 ==> #[trigger] lane16(1u64 << s, j) == if j == k {
                1u16 << (y as u16)
            } else {
                0u16
            },
{
    assert(((1u64 << s) & 0xFFFF) as u16 == (if k == 0 {
        1u16 << (y as u16)
    } else {
        0u16
    }) && (((1u64 << s) >> 16u64) & 0xFFFF) as u16 == (if k == 1 {
        1u16 << (y as u16)
    } else {
        0u16
    }) && (((1u64 << s) >> 32u64) & 0xFFFF) as u16 == (if k == 2 {
        1u16 << (y as u16)
    } else {
        0u16
    }) && (((1u64 << s) >> 48u64) & 0xFFFF) as u16 == (if k == 3 {
        1u16 << (y as u16)
    } else {
        0u16
    })) by (bit_vector)
        requires
            k < 4,
            y < 16,
            s == 16 * k + y,
    ;
}

/// Shifting every lane by one bit, with no bit crossing into the next lane.
pub proof fn lemma_lanes_shift_rows(w: u64)
    ensures
        forall|k: int|
            0 <= k < 4 ==> #[trigger] lane16((w << 1u64) & 0xFFFE_FFFE_FFFE_FFFE, k) == lane16(w, k)
                << 1u16,
        forall|k: int|
            0 <= k < 4 ==> #[trigger] lane16((w >> 1u64) & 0x7FFF_7FFF_7FFF_7FFF, k) == lane16(w, k)
                >> 1u16,
{
    let u = (w << 1u64) & 0xFFFE_FFFE_FFFE_FFFE;
    let d = (w >> 1u64) & 0x7FFF_7FFF_7FFF_7FFF;
    assert(((u & 0xFFFF) as u16 == ((w & 0xFFFF) as u16) << 1u16 && ((u >> 16u64) & 0xFFFF) as u16
        == (((w >> 16u64) & 0xFFFF) as u16) << 1u16 && ((u >> 32u64) & 0xFFFF) as u16 == (((w
        >> 32u64) & 0xFFFF) as u16) << 1u16 && ((u >> 48u64) & 0xFFFF) as u16 == (((w >> 48u64)
        & 0xFFFF) as u16) << 1u16)
        && ((d & 0xFFFF) as u16 == ((w & 0xFFFF) as u16) >> 1u16 && ((d >> 16u64) & 0xFFFF) as u16
        == (((w >> 16u64) & 0xFFFF) as u16) >> 1u16 && ((d >> 32u64) & 0xFFFF) as u16 == (((w
        >> 32u64) & 0xFFFF) as u16) >> 1u16 && ((d >> 48u64) & 0xFFFF) as u16 == (((w >> 48u64)
        & 0xFFFF) as u16) >> 1u16)) by (bit_vector)
        requires
            u == (w << 1u64) & 0xFFFE_FFFE_FFFE_FFFE,
            d == (w >> 1u64) & 0x7FFF_7FFF_7FFF_7FFF,
    ;
}

/// Shifting the 128-bit value `(lo, hi)` by one lane towards lane 0.
pub proof fn lemma_lanes_shift_down_one_lane(lo: u64, hi: u64)
    ensures
        lanes_of((lo >> 16u64) | (hi << 48u64), hi >> 16u64) =~= Seq::new(
            8,
            |i: int| if i < 7 { lanes_of(lo, hi)[i + 1] } else { 0u16 },
        ),
{
    let a = (lo >> 16u64) | (hi << 48u64);
    let b = hi >> 16u64;
    assert(((a & 0xFFFF) as u16 == ((lo >> 16u64) & 0xFFFF) as u16 && ((a >> 16u64) & 0xFFFF) as u16
        == ((lo >> 32u64) & 0xFFFF) as u16 && ((a >> 32u64) & 0xFFFF) as u16 == ((lo >> 48u64)
        & 0xFFFF) as u16 && ((a >> 48u64) & 0xFFFF) as u16 == (hi & 0xFFFF) as u16)
        && ((b & 0xFFFF) as u16 == ((hi >> 16u64) & 0xFFFF) as u16 && ((b >> 16u64) & 0xFFFF) as u16
        == ((hi >> 32u64) & 0xFFFF) as u16 && ((b >> 32u64) & 0xFFFF) as u16 == ((hi >> 48u64)
        & 0xFFFF) as u16 && ((b >> 48u64) & 0xFFFF) as u16 == 0)) by (bit_vector)
        requires
            a == (lo >> 16u64) | (hi << 48u64),
            b == hi >> 16u64,
    ;
}

/// Shifting the 128-bit value `(lo, hi)` by one lane away from lane 0.
pub proof fn lemma_lanes_shift_up_one_lane(lo: u64, hi: u64)
    ensures
        lanes_of(lo << 16u64, (hi << 16u64) | (lo >> 48u64)) =~= Seq::new(
            8,
            |i: int| if i > 0 { lanes_of(lo, hi)[i - 1] } else { 0u16 },
        ),
{
    let a = lo << 16u64;
    let b = (hi << 16u64) | (lo >> 48u64);
    assert(((a & 0xFFFF) as u16 == 0 && ((a >> 16u64) & 0xFFFF) as u16 == (lo & 0xFFFF) as u16 && ((a
        >> 32u64) & 0xFFFF) as u16 == ((lo >> 16u64) & 0xFFFF) as u16 && ((a >> 48u64) & 0xFFFF) as u16
        == ((lo >> 32u64) & 0xFFFF) as u16)
        && ((b & 0xFFFF) as u16 == ((lo >> 48u64) & 0xFFFF) as u16 && ((b >> 16u64) & 0xFFFF) as u16
        == (hi & 0xFFFF) as u16 && ((b >> 32u64) & 0xFFFF) as u16 == ((hi >> 16u64) & 0xFFFF) as u16
        && ((b >> 48u64) & 0xFFFF) as u16 == ((hi >> 32u64) & 0xFFFF) as u16)) by (bit_vector)
        requires
            a == lo << 16u64,
            b == (hi << 16u64) | (lo >> 48u64),
    ;
}

/// One step of `popcnt`, zero included.
pub proof fn lemma_popcnt_unfold(x: nat)
    ensures
        popcnt(x) == x % 2 + popcnt(x / 2),
{
    if x == 0 {
        assert(popcnt(0) == 0);
    }
}

/// The set bits of `x` are those below bit `s` and those from bit `s` on.
pub proof fn lemma_popcnt_split(x: nat, s: nat)
    ensures
        pow2(s) > 0,
        popcnt(x) == popcnt(x % pow2(s)) + popcnt(x / pow2(s)),
    decreases s,
{
    lemma_pow2_pos(s);
    if s == 0 {
        lemma2_to64();
    } else {
        let p = pow2((s - 1) as nat);
        lemma_pow2_unfold(s);
        lemma_pow2_pos((s - 1) as nat);
        lemma_popcnt_split(x / 2, (s - 1) as nat);
        lemma_popcnt_unfold(x);
        lemma_popcnt_unfold(x % pow2(s));
        lemma_mod_breakdown(x as int, 2, p as int);
        lemma_div_denominator(x as int, 2, p as int);
        assert((x % pow2(s)) / 2 == (x / 2) % p);
        assert((x % pow2(s)) % 2 == x % 2);
    }
}

/// A number below `2^n` has at most `n` set bits.
pub proof fn lemma_popcnt_bound(x: nat, n: nat)
    requires
        x < pow2(n),
    ensures
        popcnt(x) <= n,
    decreases n,
{
    if n == 0 {
        lemma2_to64();
    } else {
        lemma_pow2_unfold(n);
        lemma_popcnt_bound(x / 2, (n - 1) as nat);
    }
}

/// A 64-bit word has at most 64 set bits.
pub proof fn lemma_popcnt_u64_bound(x: u64)
    ensures
        popcnt(x as nat) <= 64,
{
    lemma2_to64();
    lemma_popcnt_bound(x as nat, 64);
}

/// The set bits of a word are those of its four lanes.
pub proof fn lemma_popcnt_lanes(w: u64)
    ensures
        popcnt(w as nat) == popcnt(lane16(w, 0) as nat) + popcnt(lane16(w, 1) as nat) + popcnt(
            lane16(w, 2) as nat,
        ) + popcnt(lane16(w, 3) as nat),
{
    lemma2_to64();
    let x = w as nat;
    lemma_popcnt_split(x, 16);
    lemma_popcnt_split(x / 0x10000, 16);
    lemma_popcnt_split((x / 0x10000) / 0x10000, 16);
    assert((w & 0xFFFF) == w % 0x10000 && ((w >> 16u64) & 0xFFFF) == (w / 0x10000) % 0x10000 && ((w
        >> 32u64) & 0xFFFF) == ((w / 0x10000) / 0x10000) % 0x10000 && ((w >> 48u64) & 0xFFFF) == ((w
        / 0x10000) / 0x10000) / 0x10000) by (bit_vector);
}

/// Lanes of `w & -w`: the lowest set bit of the lowest nonzero lane, all other lanes zero.
pub proof fn lemma_lanes_lowbit(w: u64)
    ensures
        lane16(w & ((!w + 1) as u64), 0) == lowbit16(lane16(w, 0)),
        lane16(w & ((!w + 1) as u64), 1) == if lane16(w, 0) == 0 {
            lowbit16(lane16(w, 1))
        } else {
            0
        },
        lane16(w & ((!w + 1) as u64), 2) == if lane16(w, 0) == 0 && lane16(w, 1) == 0 {
            lowbit16(lane16(w, 2))
        } else {
            0
        },
        lane16(w & ((!w + 1) as u64), 3) == if lane16(w, 0) == 0 && lane16(w, 1) == 0 && lane16(w, 2)
            == 0 {
            lowbit16(lane16(w, 3))
        } else {
            0
        },
{
    let r = w & ((!w + 1) as u64);
    let l0 = (w & 0xFFFF) as u16;
    let l1 = ((w >> 16u64) & 0xFFFF) as u16;
    let l2 = ((w >> 32u64) & 0xFFFF) as u16;
    let l3 = ((w >> 48u64) & 0xFFFF) as u16;
    assert(((r & 0xFFFF) as u16 == l0 & ((!l0 + 1) as u16))
        && (((r >> 16u64) & 0xFFFF) as u16 == if l0 == 0 {
        l1 & ((!l1 + 1) as u16)
    } else {
        0
    })
        && (((r >> 32u64) & 0xFFFF) as u16 == if l0 == 0 && l1 == 0 {
        l2 & ((!l2 + 1) as u16)
    } else {
        0
    })
        && (((r >> 48u64) & 0xFFFF) as u16 == if l0 == 0 && l1 == 0 && l2 == 0 {
        l3 & ((!l3 + 1) as u16)
    } else {
        0
    })) by (bit_vector)
        requires
            r == w & ((!w + 1) as u64),
            l0 == (w & 0xFFFF) as u16,
            l1 == ((w >> 16u64) & 0xFFFF) as u16,
            l2 == ((w >> 32u64) & 0xFFFF) as u16,
            l3 == ((w >> 48u64) & 0xFFFF) as u16,
    ;
}

/// Adding one to every lane, each lane wrapping on its own.
pub open spec fn add_one_per_lane_spec(w: u64) -> u64 {
    (((w & 0x7FFF_7FFF_7FFF_7FFF) + 0x0001_0001_0001_0001) as u64) ^ (w & 0x8000_8000_8000_8000)
}

/// The lanes of `add_one_per_lane_spec(w)` are those of `w` plus one, each wrapping.
pub proof fn lemma_lanes_add_one(w: u64)
    ensures
        (w & 0x7FFF_7FFF_7FFF_7FFF) + 0x0001_0001_0001_0001 <= u64::MAX,
        forall|k: int|
            0 <= k < 4 ==> #[trigger] lane16(add_one_per_lane_spec(w), k) == (lane16(w, k) + 1) as u16,
{
    let r = add_one_per_lane_spec(w);
    assert(((w & 0x7FFF_7FFF_7FFF_7FFF) + 0x0001_0001_0001_0001 <= u64::MAX)
        && ((r & 0xFFFF) as u16 == (((w & 0xFFFF) as u16) + 1) as u16 && ((r >> 16u64) & 0xFFFF) as u16
        == ((((w >> 16u64) & 0xFFFF) as u16) + 1) as u16 && ((r >> 32u64) & 0xFFFF) as u16 == ((((w
        >> 32u64) & 0xFFFF) as u16) + 1) as u16 && ((r >> 48u64) & 0xFFFF) as u16 == ((((w >> 48u64)
        & 0xFFFF) as u16) + 1) as u16)) by (bit_vector)
        requires
            r == (((w & 0x7FFF_7FFF_7FFF_7FFF) + 0x0001_0001_0001_0001) as u64) ^ (w
                & 0x8000_8000_8000_8000),
    ;
}

/// Small identities on lanes.
pub proof fn lemma_u16_identities(a: u16, b: u16)
    by (bit_vector)
    ensures
        a | 0u16 == a,
        0u16 & a == 0,
        !b & a == a & !b,
        !0u16 & a == a,
        a ^ 0xFFFFu16 == !a,
        a + !a == 0xFFFF,
        (a ^ b == 0u16) == (a == b),
{
}

/// Low bit and halves of words, and how they rebuild a word.
pub proof fn lemma_u64_halves(a: u64, m: u64, rest: u64)
    by (bit_vector)
    ensures
        a >> 1u64 == a / 2,
        a & 1 == a % 2,
        m >> 1u64 == m / 2,
        m & 1 == m % 2,
        rest <= m / 2 ==> (a & 1) | (rest << 1u64) == a % 2 + 2 * rest,
        rest <= m / 2 ==> rest << 1u64 == 2 * rest,
        a & 0 == 0,
        m % 2 == 1 ==> a & m == a % 2 + 2 * ((a / 2) & (m / 2)),
        m % 2 == 0 ==> a & m == 2 * ((a / 2) & (m / 2)),
        a != 0 ==> !a + 1 <= u64::MAX,
{
}

/// A power of two has one set bit.
pub proof fn lemma_popcnt_pow2(n: nat)
    ensures
        popcnt(pow2(n)) == 1,
    decreases n,
{
    lemma_pow2_pos(n);
    if n == 0 {
        lemma2_to64();
        assert(popcnt(1) == 1 + popcnt(0));
    } else {
        lemma_pow2_unfold(n);
        lemma_popcnt_pow2((n - 1) as nat);
        lemma_popcnt_unfold(pow2(n));
    }
}

/// `1 << y` has one set bit.
pub proof fn lemma_popcnt_single_bit16(y: u16)
    requires
        y < 16,
    ensures
        popcnt((1u16 << y) as nat) == 1,
{
    lemma_u16_pow2_no_overflow(y as nat);
    lemma_u16_shl_is_mul(1, y);
    lemma_popcnt_pow2(y as nat);
}

/// A nonzero lane's lowest set bit is the single bit `t` of `l` below which
/// `l` has no set bit.
pub proof fn lemma_lowbit16_single(l: u16) -> (t: u16)
    requires
        l != 0,
    ensures
        t < 16,
        lowbit16(l) == 1u16 << t,
        bit16(l, t as int),
        forall|j: int| 0 <= j < t ==> !#[trigger] bit16(l, j),
{
    let r = lowbit16(l);
    lemma_lowbit16_is_lowest_set_bit(l);
    lemma_bit16_zero(r);
    let t0 = choose|j: int| 0 <= j < 16 && bit16(r, j);
    let tt = t0 as u16;
    assert forall|j: int|
        0 <= j < 16 implies (#[trigger] bit16(r, j) == (j == t0)) && (j < t0 ==> !bit16(l, j))
        && bit16(l, t0) by {
        let jj = j as u16;
        assert((((r >> jj) & 1 == 1) == (jj == tt)) && (jj < tt ==> (l >> jj) & 1 != 1) && ((l
            >> tt) & 1 == 1)) by (bit_vector)
            requires
                r != 0,
                r & ((r - 1) as u16) == 0,
                l & r == r,
                l & ((r - 1) as u16) == 0,
                (r >> tt) & 1 == 1,
                jj < 16,
                tt < 16,
        ;
    }
    assert forall|j: int| 0 <= j < t0 implies !#[trigger] bit16(l, j) by {
        assert(bit16(r, j) == (j == t0));
    }
    lemma_bit16_single(tt);
    lemma_bit16_ext(r, 1u16 << tt);
    assert(bit16(l, t0)) by {
        assert(bit16(r, 0) == (0 == t0));
    }
    tt
}

/// Below `2^n`, a number and its complement share out the `n` bits.
pub proof fn lemma_popcnt_complement(x: nat, n: nat)
    requires
        x < pow2(n),
    ensures
        popcnt(x) + popcnt((pow2(n) - 1 - x) as nat) == n,
    decreases n,
{
    if n == 0 {
        lemma2_to64();
    } else {
        lemma_pow2_unfold(n);
        lemma_pow2_pos((n - 1) as nat);
        let p = pow2((n - 1) as nat);
        let y = (pow2(n) - 1 - x) as nat;
        lemma_popcnt_complement(x / 2, (n - 1) as nat);
        lemma_popcnt_unfold(x);
        lemma_popcnt_unfold(y);
        assert(y / 2 == (p - 1 - x / 2) as nat);
        assert(x % 2 + y % 2 == 1);
    }
}

/// `0xFFFF >> c` holds the low `16 - c` bits: it has `16 - c` set bits.
pub proof fn lemma_popcnt_low_mask16(c: u32)
    requires
        c <= 16,
    ensures
        ((0xFFFFu32 >> c) as u16) as nat == pow2((16 - c) as nat) - 1,
        popcnt(((0xFFFFu32 >> c) as u16) as nat) == 16 - c,
{
    let k = (16 - c) as u32;
    assert((0xFFFFu32 >> c) + 1 == 1u32 << k && 0xFFFFu32 >> c <= 0xFFFF) by (bit_vector)
        requires
            c <= 16,
            k == 16 - c,
    ;
    lemma_u32_pow2_no_overflow(k as nat);
    lemma_u32_shl_is_mul(1, k);
    lemma_popcnt_complement(0, k as nat);
    assert(popcnt(0) == 0);
}

} // verus!
