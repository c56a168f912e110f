//! The bitboard: a 128-bit value held as two 64-bit words.
//!
//! The board has `ENTIRE_WIDTH` (8) columns and `ENTIRE_HEIGHT` (16) rows.
//! Column `x` is the 16-bit lane `x` of the value (lanes 0 to 3 in `lo`,
//! lanes 4 to 7 in `hi`), and row `y` of that column is bit `y` of the lane.
use vstd::prelude::*;

use vstd::arithmetic::power2::{lemma2_to64, pow2};

use crate::bmi::{
    field16, lemma_lane16_is_field16, lemma_pdep_le_mask, lemma_pext_le_mask,
    lemma_pext_pdep_by_fields, pdep_spec, pext_spec,
};
use crate::lanes::{
    add_one_per_lane_spec, bit16, lane16, lanes_of, lemma_bit16_ext, lemma_bit16_ops,
    lemma_bit16_shifts, lemma_bit16_single, lemma_bit16_zero, lemma_lanes_add_one,
    lemma_lanes_bitwise, lemma_lanes_lowbit, lemma_lanes_of_injective,
    lemma_lanes_shift_down_one_lane, lemma_lanes_shift_rows, lemma_lanes_shift_up_one_lane,
    lemma_lanes_single_bit, lemma_lowbit16_is_lowest_set_bit, lemma_lowbit16_single,
    lemma_pack_lanes, lemma_popcnt_bound, lemma_popcnt_complement, lemma_popcnt_lanes,
    lemma_popcnt_low_mask16, lemma_popcnt_single_bit16, lemma_popcnt_u64_bound,
    lemma_popcnt_unfold, lemma_u16_identities, lemma_u64_halves, lemma_zero_lanes, lowbit16,
    popcnt,
};
use crate::{ENTIRE_HEIGHT, ENTIRE_WIDTH, HEIGHT, WIDTH};

verus! {

/// A set of cells of the board, one bit per cell.
#[derive(Clone, Copy, Debug)]
pub struct BoardBits {
    /// Columns 0 to 3, 16 bits each, column 0 lowest.
    pub lo: u64,
    /// Columns 4 to 7, 16 bits each, column 4 lowest.
    pub hi: u64,
}

impl View for BoardBits {
    type V = Seq<u16>;

    /// The eight columns, each a 16-bit word whose bit `y` is row `y`.
    open spec fn view(&self) -> Seq<u16> {
        lanes_of(self.lo, self.hi)
    }
}

/// Eight lanes, all zero.
pub open spec fn zero_lanes() -> Seq<u16> {
    Seq::new(8, |i: int| 0u16)
}

/// The first `i` lanes of `s` are zero.
pub open spec fn zero_below(s: Seq<u16>, i: int) -> bool {
    forall|j: int| 0 <= j < i ==> s[j] == 0
}

/// Each lane of `s` reduced to its lowest set bit, in the first nonzero lane
/// only; every other lane zero.
pub open spec fn lsb_lanes(s: Seq<u16>) -> Seq<u16> {
    Seq::new(8, |i: int| if zero_below(s, i) { lowbit16(s[i]) } else { 0u16 })
}

/// The complement of each lane: the cells that a board with lanes `s` leaves.
pub open spec fn before_pop_lanes(s: Seq<u16>) -> Seq<u16> {
    Seq::new(8, |i: int| !s[i])
}

/// For each lane of `s`, the low `16 - c` bits, where `c` is the number of
/// bits set in that lane.
pub open spec fn after_pop_lanes(s: Seq<u16>) -> Seq<u16> {
    Seq::new(8, |i: int| (0xFFFFu32 >> (popcnt(s[i] as nat) as u32)) as u16)
}

/// The first nonzero lane of eight lanes that are not all zero.
proof fn lemma_first_nonzero_lane(s: Seq<u16>) -> (x: int)
    requires
        s.len() == 8,
        s != zero_lanes(),
    ensures
        0 <= x < 8,
        s[x] != 0,
        zero_below(s, x),
{
    if s[0] != 0 {
        0
    } else if s[1] != 0 {
        1
    } else if s[2] != 0 {
        2
    } else if s[3] != 0 {
        3
    } else if s[4] != 0 {
        4
    } else if s[5] != 0 {
        5
    } else if s[6] != 0 {
        6
    } else {
        if s[7] == 0 {
            assert(s =~= zero_lanes());
        }
        7
    }
}

/// Adds one to each 16-bit lane of `w`, each lane wrapping on its own.
fn add_one_per_lane(w: u64) -> (r: u64)
    ensures
        r == add_one_per_lane_spec(w),
{
    proof {
        lemma_lanes_add_one(w);
    }
    ((w & 0x7FFF_7FFF_7FFF_7FFF) + 0x0001_0001_0001_0001) ^ (w & 0x8000_8000_8000_8000)
}

/// The bits of the lanes that the fixed boards are made of.
proof fn lemma_fixed_lane_bits()
    ensures
        forall|j: int| #[trigger] bit16(0xFFFFu16, j) == (0 <= j < 16),
        forall|j: int| #[trigger] bit16(0x8001u16, j) == (j == 0 || j == 15),
        forall|j: int| #[trigger] bit16(0x1FFEu16, j) == (1 <= j <= 12),
        forall|j: int| #[trigger] bit16(0x3FFEu16, j) == (1 <= j <= 13),
        forall|j: int| !#[trigger] bit16(0u16, j),
{
    assert forall|j: int|
        #![trigger bit16(0xFFFFu16, j)]
        #![trigger bit16(0x8001u16, j)]
        #![trigger bit16(0x1FFEu16, j)]
        #![trigger bit16(0x3FFEu16, j)]
        #![trigger bit16(0u16, j)]
        {
            &&& bit16(0xFFFFu16, j) == (0 <= j < 16)
            &&& bit16(0x8001u16, j) == (j == 0 || j == 15)
            &&& bit16(0x1FFEu16, j) == (1 <= j <= 12)
            &&& bit16(0x3FFEu16, j) == (1 <= j <= 13)
            &&& !bit16(0u16, j)
        } by {
        if 0 <= j < 16 {
            let jj = j as u16;
            assert(((0xFFFFu16 >> jj) & 1 == 1) && (((0x8001u16 >> jj) & 1 == 1) == (jj == 0
                || jj == 15)) && (((0x1FFEu16 >> jj) & 1 == 1) == (1 <= jj <= 12)) && (((0x3FFEu16
                >> jj) & 1 == 1) == (1 <= jj <= 13)) && !((0u16 >> jj) & 1 == 1)) by (bit_vector)
                requires
                    jj < 16,
            ;
        }
    }
}

/// Number of set bits of `w`.
fn popcount_word(w: u64) -> (r: u64)
    ensures
        r == popcnt(w as nat),
        r <= 64,
{
    let mut c: u64 = 0;
    let mut v: u64 = w;
    proof {
        lemma_popcnt_u64_bound(w);
    }
    while v != 0
        invariant
            c + popcnt(v as nat) == popcnt(w as nat),
            popcnt(w as nat) <= 64,
        decreases v,
    {
        proof {
            lemma_popcnt_unfold(v as nat);
            lemma_u64_halves(v, v, 0);
        }
        c = c + (v & 1);
        v = v >> 1u64;
    }
    c
}

/// A 16-bit lane has at most 16 set bits.
proof fn lemma_lane_popcnt_bound(l: u16)
    ensures
        popcnt(l as nat) <= 16,
{
    lemma2_to64();
    lemma_popcnt_bound(l as nat, 16);
}

impl BoardBits {
    /// The cell at column `x`, row `y` is set.
    pub open spec fn cell(self, x: int, y: int) -> bool {
        0 <= x < 8 && bit16(self@[x], y)
    }

    /// Number of set cells.
    pub open spec fn count(self) -> nat {
        popcnt(self@[0] as nat) + popcnt(self@[1] as nat) + popcnt(self@[2] as nat) + popcnt(
            self@[3] as nat,
        ) + popcnt(self@[4] as nat) + popcnt(self@[5] as nat) + popcnt(self@[6] as nat) + popcnt(
            self@[7] as nat,
        )
    }

    /// The board is a function of its columns.
    pub proof fn lemma_view_injective(a: BoardBits, b: BoardBits)
        requires
            a@ == b@,
        ensures
            a == b,
    {
        lemma_lanes_of_injective(a.lo, a.hi, b.lo, b.hi);
    }

    /// Two boards are equal exactly when they hold the same cells.
    pub proof fn lemma_cells_determine(a: BoardBits, b: BoardBits)
        ensures
            (a == b) == (forall|x: int, y: int|
                0 <= x < 8 && 0 <= y < 16 ==> #[trigger] a.cell(x, y) == b.cell(x, y)),
    {
        if forall|x: int, y: int|
            0 <= x < 8 && 0 <= y < 16 ==> #[trigger] a.cell(x, y) == b.cell(x, y) {
            Self::lemma_same_cells_equal(a, b);
        }
    }

    proof fn lemma_same_cells_equal(a: BoardBits, b: BoardBits)
        requires
            forall|x: int, y: int|
                0 <= x < 8 && 0 <= y < 16 ==> #[trigger] a.cell(x, y) == b.cell(x, y),
        ensures
            a == b,
    {
        assert forall|x: int| 0 <= x < 8 implies a@[x] == b@[x] by {
            assert forall|y: int| 0 <= y < 16 implies #[trigger] bit16(a@[x], y) == bit16(
                b@[x],
                y,
            ) by {
                assert(a.cell(x, y) == b.cell(x, y));
            }
            lemma_bit16_ext(a@[x], b@[x]);
        }
        assert(a@ =~= b@);
        Self::lemma_view_injective(a, b);
    }

    /// A board that holds a single cell counts one cell.
    pub proof fn lemma_count_single_cell(b: BoardBits, x: int, y: int)
        requires
            0 <= x < 8,
            0 <= y < 16,
            forall|i: int, j: int| #[trigger] b.cell(i, j) == (i == x && j == y),
        ensures
            b.count() == 1,
    {
        let yy = y as u16;
        lemma_bit16_single(yy);
        lemma_bit16_zero(0);
        assert forall|i: int| 0 <= i < 8 implies b@[i] == if i == x {
            1u16 << yy
        } else {
            0u16
        } by {
            let l = if i == x {
                1u16 << yy
            } else {
                0u16
            };
            assert forall|j: int| 0 <= j < 16 implies #[trigger] bit16(b@[i], j) == bit16(l, j) by {
                assert(b.cell(i, j) == (i == x && j == y));
            }
            lemma_bit16_ext(b@[i], l);
        }
        lemma_popcnt_single_bit16(yy);
        assert(popcnt(0) == 0);
    }

    /// `lsb` keeps exactly one cell of a nonempty board: its first set cell,
    /// taking columns from left to right and, within a column, rows from the
    /// bottom up.
    pub proof fn lemma_lsb_is_first_cell(b: BoardBits, r: BoardBits)
        requires
            b@ != zero_lanes(),
            r@ == lsb_lanes(b@),
        ensures
            r.count() == 1,
            exists|x: int, y: int|
                {
                    &&& #[trigger] b.cell(x, y)
                    &&& forall|i: int, j: int| #[trigger] r.cell(i, j) == (i == x && j == y)
                    &&& forall|i: int, j: int|
                        (i < x || (i == x && j < y)) ==> !#[trigger] b.cell(i, j)
                },
    {
        let s = b@;
        let x = lemma_first_nonzero_lane(s);
        let t = lemma_lowbit16_single(s[x]);
        let y = t as int;
        lemma_lowbit16_is_lowest_set_bit(0);
        lemma_bit16_single(t);
        lemma_bit16_zero(0);
        assert forall|i: int| 0 <= i < 8 implies r@[i] == if i == x {
            1u16 << t
        } else {
            0u16
        } by {
            if i < x {
                assert(s[i] == 0);
            } else if i > x {
                assert(!zero_below(s, i)) by {
                    assert(s[x] != 0);
                }
            }
        }
        assert forall|i: int, j: int| #[trigger] r.cell(i, j) == (i == x && j == y) by {
            if 0 <= i < 8 {
                assert(r@[i] == if i == x {
                    1u16 << t
                } else {
                    0u16
                });
            }
        }
        assert forall|i: int, j: int| (i < x || (i == x && j < y)) implies !#[trigger] b.cell(
            i,
            j,
        ) by {
            if 0 <= i < x {
                assert(s[i] == 0);
            }
        }
        assert(b.cell(x, y));
        Self::lemma_count_single_cell(r, x, y);
    }

    /// In every column, the mask of `before_pop_mask` and that of
    /// `after_pop_mask` hold the same number of cells: those that `popped`
    /// leaves, `16 - c` where `c` is the number of cells `popped` holds there.
    pub proof fn lemma_pop_masks_agree(popped: BoardBits, before: (u64, u64), after: (u64, u64))
        requires
            lanes_of(before.0, before.1) == before_pop_lanes(popped@),
            lanes_of(after.0, after.1) == after_pop_lanes(popped@),
        ensures
            forall|i: int|
                0 <= i < 8 ==> {
                    &&& popcnt(#[trigger] lanes_of(before.0, before.1)[i] as nat) == 16 - popcnt(
                        popped@[i] as nat,
                    )
                    &&& popcnt(lanes_of(after.0, after.1)[i] as nat) == 16 - popcnt(
                        popped@[i] as nat,
                    )
                },
    {
        assert forall|i: int| 0 <= i < 8 implies {
            &&& popcnt(#[trigger] lanes_of(before.0, before.1)[i] as nat) == 16 - popcnt(
                popped@[i] as nat,
            )
            &&& popcnt(lanes_of(after.0, after.1)[i] as nat) == 16 - popcnt(popped@[i] as nat)
        } by {
            let l = popped@[i];
            lemma2_to64();
            lemma_u16_identities(l, 0);
            lemma_popcnt_complement(l as nat, 16);
            lemma_lane_popcnt_bound(l);
            lemma_popcnt_low_mask16(popcnt(l as nat) as u32);
        }
    }

    /// Removing the cells of `popped` from the board `b`: extracting each word
    /// of `b` under the matching word of `before_pop_mask(popped)`, then
    /// depositing the result under the matching word of
    /// `after_pop_mask(popped)`, deletes in every column the rows that `popped`
    /// holds there, the rows above moving down in order to close the gaps.
    pub proof fn lemma_pop_masks_drop_cells(
        b: BoardBits,
        popped: BoardBits,
        before: (u64, u64),
        after: (u64, u64),
    )
        requires
            lanes_of(before.0, before.1) == before_pop_lanes(popped@),
            lanes_of(after.0, after.1) == after_pop_lanes(popped@),
        ensures
            pdep_spec(pext_spec(b.lo as nat, before.0 as nat), after.0 as nat) <= after.0,
            pdep_spec(pext_spec(b.hi as nat, before.1 as nat), after.1 as nat) <= after.1,
            lanes_of(
                pdep_spec(pext_spec(b.lo as nat, before.0 as nat), after.0 as nat) as u64,
                pdep_spec(pext_spec(b.hi as nat, before.1 as nat), after.1 as nat) as u64,
            ) == Seq::new(8, |i: int| pext_spec(b@[i] as nat, (!popped@[i]) as nat) as u16),
    {
        let rlo = pdep_spec(pext_spec(b.lo as nat, before.0 as nat), after.0 as nat);
        let rhi = pdep_spec(pext_spec(b.hi as nat, before.1 as nat), after.1 as nat);
        lemma_pdep_le_mask(pext_spec(b.lo as nat, before.0 as nat), after.0 as nat);
        lemma_pdep_le_mask(pext_spec(b.hi as nat, before.1 as nat), after.1 as nat);
        lemma_lane16_is_field16(b.lo);
        lemma_lane16_is_field16(b.hi);
        lemma_lane16_is_field16(before.0);
        lemma_lane16_is_field16(before.1);
        lemma_lane16_is_field16(after.0);
        lemma_lane16_is_field16(after.1);
        lemma_lane16_is_field16(rlo as u64);
        lemma_lane16_is_field16(rhi as u64);
        let bl = lanes_of(before.0, before.1);
        let al = lanes_of(after.0, after.1);
        assert forall|i: int| 0 <= i < 8 implies al[i] as nat == pow2(popcnt(bl[i] as nat)) - 1 by {
            let l = popped@[i];
            lemma2_to64();
            lemma_u16_identities(l, 0);
            lemma_popcnt_complement(l as nat, 16);
            lemma_lane_popcnt_bound(l);
            lemma_popcnt_low_mask16(popcnt(l as nat) as u32);
            assert(bl[i] == !l);
        }
        assert forall|k: nat| k < 4 implies #[trigger] field16(after.0 as nat, k) == pow2(
            popcnt(field16(before.0 as nat, k)),
        ) - 1 by {
            assert(al[k as int] == lane16(after.0, k as int));
            assert(bl[k as int] == lane16(before.0, k as int));
        }
        assert forall|k: nat| k < 4 implies #[trigger] field16(after.1 as nat, k) == pow2(
            popcnt(field16(before.1 as nat, k)),
        ) - 1 by {
            assert(al[k as int + 4] == lane16(after.1, k as int));
            assert(bl[k as int + 4] == lane16(before.1, k as int));
        }
        lemma_pext_pdep_by_fields(b.lo as nat, before.0 as nat, after.0 as nat, 4);
        lemma_pext_pdep_by_fields(b.hi as nat, before.1 as nat, after.1 as nat, 4);
        let e = Seq::new(8, |i: int| pext_spec(b@[i] as nat, (!popped@[i]) as nat) as u16);
        assert forall|i: int| 0 <= i < 8 implies lanes_of(rlo as u64, rhi as u64)[i] == e[i] by {
            lemma_pext_le_mask(b@[i] as nat, (!popped@[i]) as nat);
            assert(bl[i] == !popped@[i]);
            if i < 4 {
                let k = i as nat;
                assert(field16(rlo, k) == pext_spec(field16(b.lo as nat, k), field16(
                    before.0 as nat,
                    k,
                )));
                assert(b@[i] == lane16(b.lo, i));
                assert(bl[i] == lane16(before.0, i));
            } else {
                let k = (i - 4) as nat;
                assert(field16(rhi, k) == pext_spec(field16(b.hi as nat, k), field16(
                    before.1 as nat,
                    k,
                )));
                assert(b@[i] == lane16(b.hi, i - 4));
                assert(bl[i] == lane16(before.1, i - 4));
            }
        }
        assert(lanes_of(rlo as u64, rhi as u64) =~= e);
    }

    /// `(x, y)` names a cell of the board.
    pub fn within_bound(x: usize, y: usize) -> (r: bool)
        ensures
            r == (x < 8 && y < 16),
    {
        x < ENTIRE_WIDTH && y < ENTIRE_HEIGHT
    }

    /// The board whose columns are `lanes`, column 0 first.
    pub fn from_u16x8(lanes: [u16; 8]) -> (r: Self)
        ensures
            r@ == lanes@,
    {
        let r = BoardBits {
            lo: (lanes[0] as u64) | ((lanes[1] as u64) << 16u64) | ((lanes[2] as u64) << 32u64) | ((
            lanes[3] as u64) << 48u64),
            hi: (lanes[4] as u64) | ((lanes[5] as u64) << 16u64) | ((lanes[6] as u64) << 32u64) | ((
            lanes[7] as u64) << 48u64),
        };
        proof {
            lemma_pack_lanes(lanes[0], lanes[1], lanes[2], lanes[3]);
            lemma_pack_lanes(lanes[4], lanes[5], lanes[6], lanes[7]);
            assert(r@ =~= lanes@);
        }
        r
    }

    /// The columns of the board, column 0 first.
    pub fn to_u16x8(&self) -> (r: [u16; 8])
        ensures
            r@ == self@,
    {
        let r = [
            (self.lo & 0xFFFF) as u16,
            ((self.lo >> 16u64) & 0xFFFF) as u16,
            ((self.lo >> 32u64) & 0xFFFF) as u16,
            ((self.lo >> 48u64) & 0xFFFF) as u16,
            (self.hi & 0xFFFF) as u16,
            ((self.hi >> 16u64) & 0xFFFF) as u16,
            ((self.hi >> 32u64) & 0xFFFF) as u16,
            ((self.hi >> 48u64) & 0xFFFF) as u16,
        ];
        assert(r@ =~= self@);
        r
    }

    /// The empty board.
    pub fn zero() -> (r: Self)
        ensures
            r@ == zero_lanes(),
            forall|x: int, y: int| !#[trigger] r.cell(x, y),
    {
        let r = BoardBits { lo: 0, hi: 0 };
        proof {
            lemma_zero_lanes(0);
            assert(r@ =~= zero_lanes());
            lemma_bit16_zero(0);
        }
        r
    }

    /// The board holds no cell.
    pub fn is_zero(&self) -> (r: bool)
        ensures
            r == (self@ == zero_lanes()),
            r == (forall|x: int, y: int| !#[trigger] self.cell(x, y)),
    {
        proof {
            lemma_zero_lanes(self.lo);
            lemma_zero_lanes(self.hi);
            let s = self@;
            assert(s[0] == lane16(self.lo, 0) && s[1] == lane16(self.lo, 1) && s[2] == lane16(
                self.lo,
                2,
            ) && s[3] == lane16(self.lo, 3));
            assert(s[4] == lane16(self.hi, 0) && s[5] == lane16(self.hi, 1) && s[6] == lane16(
                self.hi,
                2,
            ) && s[7] == lane16(self.hi, 3));
            lemma_bit16_zero(0);
            if self.lo == 0 && self.hi == 0 {
                assert(s =~= zero_lanes());
            } else {
                let x = if s[0] != 0 {
                    0
                } else if s[1] != 0 {
                    1
                } else if s[2] != 0 {
                    2
                } else if s[3] != 0 {
                    3
                } else if s[4] != 0 {
                    4
                } else if s[5] != 0 {
                    5
                } else if s[6] != 0 {
                    6
                } else {
                    7
                };
                assert(s[x] != 0);
                assert(s[x] != zero_lanes()[x]);
                lemma_bit16_zero(s[x]);
                let y = choose|y: int| 0 <= y < 16 && bit16(s[x], y);
                assert(self.cell(x, y));
            }
        }
        self.lo == 0 && self.hi == 0
    }

    /// The wall: the outermost columns and rows of the board.
    pub fn wall() -> (r: Self)
        ensures
            r@ == seq![0xFFFFu16, 0x8001, 0x8001, 0x8001, 0x8001, 0x8001, 0x8001, 0xFFFF],
            forall|x: int, y: int|
                0 <= x < ENTIRE_WIDTH && 0 <= y < ENTIRE_HEIGHT ==> #[trigger] r.cell(x, y) == (x
                    == 0 || x == ENTIRE_WIDTH - 1 || y == 0 || y == ENTIRE_HEIGHT - 1),
    {
        let r = Self::from_u16x8([0xFFFF, 0x8001, 0x8001, 0x8001, 0x8001, 0x8001, 0x8001, 0xFFFF]);
        proof {
            lemma_fixed_lane_bits();
            assert(r@ =~= seq![0xFFFFu16, 0x8001, 0x8001, 0x8001, 0x8001, 0x8001, 0x8001, 0xFFFF]);
        }
        r
    }

    /// The playing field: columns 1 to `WIDTH`, rows 1 to `HEIGHT`.
    pub fn board_mask_12() -> (r: Self)
        ensures
            r@ == seq![0x0000u16, 0x1FFE, 0x1FFE, 0x1FFE, 0x1FFE, 0x1FFE, 0x1FFE, 0x0000],
            forall|x: int, y: int|
                0 <= x < ENTIRE_WIDTH && 0 <= y < ENTIRE_HEIGHT ==> #[trigger] r.cell(x, y) == (1
                    <= x <= WIDTH && 1 <= y <= HEIGHT),
    {
        let r = Self::from_u16x8([0x0000, 0x1FFE, 0x1FFE, 0x1FFE, 0x1FFE, 0x1FFE, 0x1FFE, 0x0000]);
        proof {
            lemma_fixed_lane_bits();
            assert(r@ =~= seq![0x0000u16, 0x1FFE, 0x1FFE, 0x1FFE, 0x1FFE, 0x1FFE, 0x1FFE, 0x0000]);
        }
        r
    }

    /// The playing field and the row above it: columns 1 to `WIDTH`, rows 1 to `HEIGHT + 1`.
    pub fn board_mask_13() -> (r: Self)
        ensures
            r@ == seq![0x0000u16, 0x3FFE, 0x3FFE, 0x3FFE, 0x3FFE, 0x3FFE, 0x3FFE, 0x0000],
            forall|x: int, y: int|
                0 <= x < ENTIRE_WIDTH && 0 <= y < ENTIRE_HEIGHT ==> #[trigger] r.cell(x, y) == (1
                    <= x <= WIDTH && 1 <= y <= HEIGHT + 1),
    {
        let r = Self::from_u16x8([0x0000, 0x3FFE, 0x3FFE, 0x3FFE, 0x3FFE, 0x3FFE, 0x3FFE, 0x0000]);
        proof {
            lemma_fixed_lane_bits();
            assert(r@ =~= seq![0x0000u16, 0x3FFE, 0x3FFE, 0x3FFE, 0x3FFE, 0x3FFE, 0x3FFE, 0x0000]);
        }
        r
    }

    /// Every cell of the board.
    pub fn full_mask() -> (r: Self)
        ensures
            r@ == Seq::new(8, |i: int| 0xFFFFu16),
            forall|x: int, y: int|
                0 <= x < ENTIRE_WIDTH && 0 <= y < ENTIRE_HEIGHT ==> #[trigger] r.cell(x, y),
    {
        let r = Self::from_u16x8([0xFFFF, 0xFFFF, 0xFFFF, 0xFFFF, 0xFFFF, 0xFFFF, 0xFFFF, 0xFFFF]);
        proof {
            lemma_fixed_lane_bits();
            assert(r@ =~= Seq::new(8, |i: int| 0xFFFFu16));
        }
        r
    }

    /// The board with the single cell `(x, y)`.
    pub fn onebit(x: usize, y: usize) -> (r: Self)
        requires
            x < ENTIRE_WIDTH,
            y < ENTIRE_HEIGHT,
        ensures
            r@ == Seq::new(8, |i: int| if i == x { 1u16 << (y as u16) } else { 0u16 }),
            forall|i: int, j: int| #[trigger] r.cell(i, j) == (i == x && j == y),
    {
        // x << 4 picks the column's lane within its word; x >> 2 picks the word.
        let shift = ((x << 4usize) | y) & 0x3F;
        let hi = (x as u64) >> 2u64;
        let lo = hi ^ 1;
        assert(shift < 64 && shift == 16 * (x % 4) + y && hi == x / 4 && lo == 1 - x / 4 && (0u64
            << (shift as u64)) == 0) by (bit_vector)
            requires
                x < 8,
                y < 16,
                shift == ((x << 4usize) | y) & 0x3F,
                hi == (x as u64) >> 2u64,
                lo == hi ^ 1,
        ;
        let r = BoardBits { lo: lo << (shift as u64), hi: hi << (shift as u64) };
        proof {
            let s = shift as u64;
            let k = (x % 4) as u64;
            lemma_lanes_single_bit(k, y as u64, s);
            lemma_zero_lanes(0);
            let expected = Seq::new(8, |i: int| if i == x { 1u16 << (y as u16) } else { 0u16 });
            assert(r@ =~= expected);
            lemma_bit16_single(y as u16);
            lemma_bit16_zero(0);
            assert forall|i: int, j: int| #[trigger] r.cell(i, j) == (i == x && j == y) by {
                if 0 <= i < 8 {
                    assert(r@[i] == expected[i]);
                }
            }
        }
        r
    }

    /// Cells set in `rhs` but not in this board.
    pub fn andnot(&self, rhs: Self) -> (r: Self)
        ensures
            r@ == Seq::new(8, |i: int| !self@[i] & rhs@[i]),
            forall|x: int, y: int| #[trigger] r.cell(x, y) == (!self.cell(x, y) && rhs.cell(x, y)),
    {
        let r = BoardBits { lo: !self.lo & rhs.lo, hi: !self.hi & rhs.hi };
        proof {
            lemma_lanes_bitwise(self.lo, rhs.lo);
            lemma_lanes_bitwise(self.hi, rhs.hi);
            lemma_lanes_bitwise(!self.lo, rhs.lo);
            lemma_lanes_bitwise(!self.hi, rhs.hi);
            assert(r@ =~= Seq::new(8, |i: int| !self@[i] & rhs@[i]));
            assert forall|x: int, y: int| #[trigger]
                r.cell(x, y) == (!self.cell(x, y) && rhs.cell(x, y)) by {
                if 0 <= x < 8 {
                    lemma_bit16_ops(self@[x], rhs@[x]);
                    lemma_bit16_ops(!self@[x], rhs@[x]);
                    assert(r@[x] == !self@[x] & rhs@[x]);
                }
            }
        }
        r
    }

    /// 1 when the cell `(x, y)` is set, else 0.
    pub fn get(&self, x: usize, y: usize) -> (r: u8)
        requires
            x < ENTIRE_WIDTH,
            y < ENTIRE_HEIGHT,
        ensures
            r == if self.cell(x as int, y as int) { 1u8 } else { 0u8 },
    {
        let m = Self::onebit(x, y);
        let t = m & *self;
        proof {
            lemma_zero_lanes(t.lo);
            lemma_zero_lanes(t.hi);
            lemma_bit16_single(y as u16);
            lemma_bit16_ops(m@[x as int], self@[x as int]);
            lemma_bit16_zero(t@[x as int]);
            lemma_bit16_zero(0);
            assert(t@[x as int] == m@[x as int] & self@[x as int]);
            assert(m@[x as int] == 1u16 << (y as u16));
            assert(bit16(t@[x as int], y as int) == bit16(self@[x as int], y as int));
            assert forall|i: int| 0 <= i < 8 && i != x implies t@[i] == 0 by {
                assert(t@[i] == m@[i] & self@[i]);
                assert(m@[i] == 0);
                lemma_u16_identities(self@[i], 0);
            }
            let s = t@;
            assert(s[0] == lane16(t.lo, 0) && s[1] == lane16(t.lo, 1) && s[2] == lane16(t.lo, 2)
                && s[3] == lane16(t.lo, 3));
            assert(s[4] == lane16(t.hi, 0) && s[5] == lane16(t.hi, 1) && s[6] == lane16(t.hi, 2)
                && s[7] == lane16(t.hi, 3));
        }
        if t.lo == 0 && t.hi == 0 {
            0
        } else {
            1
        }
    }

    /// Clears the cell `(x, y)`.
    pub fn set_0(&mut self, x: usize, y: usize)
        requires
            x < ENTIRE_WIDTH,
            y < ENTIRE_HEIGHT,
        ensures
            final(self)@ == old(self)@.update(
                x as int,
                old(self)@[x as int] & !(1u16 << (y as u16)),
            ),
            forall|i: int, j: int| #[trigger]
                final(self).cell(i, j) == (old(self).cell(i, j) && !(i == x && j == y)),
    {
        let m = Self::onebit(x, y);
        let r = m.andnot(*self);
        proof {
            let o = *self;
            assert forall|i: int| 0 <= i < 8 implies r@[i] == o@.update(
                x as int,
                o@[x as int] & !(1u16 << (y as u16)),
            )[i] by {
                let l = o@[i];
                let b = 1u16 << (y as u16);
                lemma_u16_identities(l, b);
            }
            assert(r@ =~= o@.update(x as int, o@[x as int] & !(1u16 << (y as u16))));
        }
        *self = r;
    }

    /// Sets the cell `(x, y)`.
    pub fn set_1(&mut self, x: usize, y: usize)
        requires
            x < ENTIRE_WIDTH,
            y < ENTIRE_HEIGHT,
        ensures
            final(self)@ == old(self)@.update(x as int, old(self)@[x as int] | (1u16 << (y as u16))),
            forall|i: int, j: int| #[trigger]
                final(self).cell(i, j) == (old(self).cell(i, j) || (i == x && j == y)),
    {
        let m = Self::onebit(x, y);
        let r = *self | m;
        proof {
            let o = *self;
            assert forall|i: int| 0 <= i < 8 implies r@[i] == o@.update(
                x as int,
                o@[x as int] | (1u16 << (y as u16)),
            )[i] by {
                let l = o@[i];
                lemma_u16_identities(l, 0);
            }
            assert(r@ =~= o@.update(x as int, o@[x as int] | (1u16 << (y as u16))));
            assert forall|i: int, j: int| #[trigger]
                r.cell(i, j) == (o.cell(i, j) || (i == x && j == y)) by {
                if 0 <= i < 8 {
                    lemma_bit16_ops(o@[i], m@[i]);
                    assert(r@[i] == o@[i] | m@[i]);
                    assert(m.cell(i, j) == (i == x && j == y));
                }
            }
        }
        *self = r;
    }

    /// Every cell moved one row up; the top row falls off.
    pub fn shift_up(&self) -> (r: Self)
        ensures
            r@ == Seq::new(8, |i: int| self@[i] << 1u16),
            forall|x: int, y: int| #[trigger]
                r.cell(x, y) == (y < ENTIRE_HEIGHT && self.cell(x, y - 1)),
    {
        let r = BoardBits {
            lo: (self.lo << 1u64) & 0xFFFE_FFFE_FFFE_FFFE,
            hi: (self.hi << 1u64) & 0xFFFE_FFFE_FFFE_FFFE,
        };
        proof {
            lemma_lanes_shift_rows(self.lo);
            lemma_lanes_shift_rows(self.hi);
            assert(r@ =~= Seq::new(8, |i: int| self@[i] << 1u16));
            assert forall|x: int, y: int| #[trigger]
                r.cell(x, y) == (y < ENTIRE_HEIGHT && self.cell(x, y - 1)) by {
                if 0 <= x < 8 {
                    lemma_bit16_shifts(self@[x]);
                    assert(r@[x] == self@[x] << 1u16);
                }
            }
        }
        r
    }

    /// Every cell moved one row down; the bottom row falls off.
    pub fn shift_down(&self) -> (r: Self)
        ensures
            r@ == Seq::new(8, |i: int| self@[i] >> 1u16),
            forall|x: int, y: int| #[trigger] r.cell(x, y) == (y >= 0 && self.cell(x, y + 1)),
    {
        let r = BoardBits {
            lo: (self.lo >> 1u64) & 0x7FFF_7FFF_7FFF_7FFF,
            hi: (self.hi >> 1u64) & 0x7FFF_7FFF_7FFF_7FFF,
        };
        proof {
            lemma_lanes_shift_rows(self.lo);
            lemma_lanes_shift_rows(self.hi);
            assert(r@ =~= Seq::new(8, |i: int| self@[i] >> 1u16));
            assert forall|x: int, y: int| #[trigger]
                r.cell(x, y) == (y >= 0 && self.cell(x, y + 1)) by {
                if 0 <= x < 8 {
                    lemma_bit16_shifts(self@[x]);
                    assert(r@[x] == self@[x] >> 1u16);
                }
            }
        }
        r
    }

    /// Every cell moved one column left; the leftmost column falls off.
    pub fn shift_left(&self) -> (r: Self)
        ensures
            r@ == Seq::new(8, |i: int| if i < 7 { self@[i + 1] } else { 0u16 }),
            forall|x: int, y: int| #[trigger] r.cell(x, y) == (x >= 0 && self.cell(x + 1, y)),
    {
        let r = BoardBits { lo: (self.lo >> 16u64) | (self.hi << 48u64), hi: self.hi >> 16u64 };
        proof {
            lemma_lanes_shift_down_one_lane(self.lo, self.hi);
            lemma_bit16_zero(0);
        }
        r
    }

    /// Every cell moved one column right; the rightmost column falls off.
    pub fn shift_right(&self) -> (r: Self)
        ensures
            r@ == Seq::new(8, |i: int| if i > 0 { self@[i - 1] } else { 0u16 }),
            forall|x: int, y: int| #[trigger]
                r.cell(x, y) == (x < ENTIRE_WIDTH && self.cell(x - 1, y)),
    {
        let r = BoardBits { lo: self.lo << 16u64, hi: (self.hi << 16u64) | (self.lo >> 48u64) };
        proof {
            lemma_lanes_shift_up_one_lane(self.lo, self.hi);
            lemma_bit16_zero(0);
        }
        r
    }

    /// Number of set cells.
    pub fn popcount(&self) -> (r: usize)
        ensures
            r == self.count(),
    {
        let c = popcount_word(self.lo) + popcount_word(self.hi);
        proof {
            lemma_popcnt_lanes(self.lo);
            lemma_popcnt_lanes(self.hi);
            let s = self@;
            assert(s[0] == lane16(self.lo, 0) && s[1] == lane16(self.lo, 1) && s[2] == lane16(
                self.lo,
                2,
            ) && s[3] == lane16(self.lo, 3));
            assert(s[4] == lane16(self.hi, 0) && s[5] == lane16(self.hi, 1) && s[6] == lane16(
                self.hi,
                2,
            ) && s[7] == lane16(self.hi, 3));
        }
        c as usize
    }

    /// Parallel bit extract: the bits of `a` at the positions set in `mask`,
    /// packed into the low bits of the result, lowest position first.
    pub fn pext_u64(a: u64, mask: u64) -> (r: u64)
        ensures
            r == pext_spec(a as nat, mask as nat),
        decreases mask,
    {
        if mask == 0 {
            0
        } else {
            proof {
                lemma_u64_halves(a, mask, 0);
                lemma_pext_le_mask((a / 2) as nat, (mask / 2) as nat);
            }
            let rest = Self::pext_u64(a >> 1u64, mask >> 1u64);
            if mask & 1 == 1 {
                proof {
                    lemma_u64_halves(a, mask, rest);
                }
                (a & 1) | (rest << 1u64)
            } else {
                rest
            }
        }
    }

    /// Parallel bit deposit: the low bits of `a`, placed in order at the
    /// positions set in `mask`, lowest position first.
    pub fn pdep_u64(a: u64, mask: u64) -> (r: u64)
        ensures
            r == pdep_spec(a as nat, mask as nat),
        decreases mask,
    {
        if mask == 0 {
            0
        } else {
            proof {
                lemma_u64_halves(a, mask, 0);
            }
            if mask & 1 == 1 {
                proof {
                    lemma_pdep_le_mask((a / 2) as nat, (mask / 2) as nat);
                }
                let rest = Self::pdep_u64(a >> 1u64, mask >> 1u64);
                proof {
                    lemma_u64_halves(a, mask, rest);
                }
                (a & 1) | (rest << 1u64)
            } else {
                proof {
                    lemma_pdep_le_mask(a as nat, (mask / 2) as nat);
                }
                let rest = Self::pdep_u64(a, mask >> 1u64);
                proof {
                    lemma_u64_halves(a, mask, rest);
                }
                rest << 1u64
            }
        }
    }

    /// The lowest set cell alone: the lowest set row of the first column that
    /// holds a cell.
    pub fn lsb(&self) -> (r: Self)
        requires
            self@ != zero_lanes(),
        ensures
            r@ == lsb_lanes(self@),
    {
        let ghost s = self@;
        proof {
            lemma_zero_lanes(self.lo);
            lemma_zero_lanes(self.hi);
            lemma_lowbit16_is_lowest_set_bit(0);
            assert(s[0] == lane16(self.lo, 0) && s[1] == lane16(self.lo, 1) && s[2] == lane16(
                self.lo,
                2,
            ) && s[3] == lane16(self.lo, 3));
            assert(s[4] == lane16(self.hi, 0) && s[5] == lane16(self.hi, 1) && s[6] == lane16(
                self.hi,
                2,
            ) && s[7] == lane16(self.hi, 3));
            if self.lo == 0 && self.hi == 0 {
                assert(s =~= zero_lanes());
            }
        }
        let lo = self.lo;
        let hi = self.hi;
        let r = if lo > 0 {
            proof {
                lemma_u64_halves(lo, 0, 0);
            }
            BoardBits { lo: lo & (!lo + 1), hi: 0 }
        } else {
            proof {
                lemma_u64_halves(hi, 0, 0);
            }
            BoardBits { lo: 0, hi: hi & (!hi + 1) }
        };
        proof {
            lemma_lanes_lowbit(self.lo);
            lemma_lanes_lowbit(self.hi);
            lemma_zero_lanes(0);
            let e = lsb_lanes(s);
            assert(zero_below(s, 0));
            assert(zero_below(s, 1) == (s[0] == 0));
            assert(zero_below(s, 2) == (s[0] == 0 && s[1] == 0));
            assert(zero_below(s, 3) == (s[0] == 0 && s[1] == 0 && s[2] == 0));
            assert(zero_below(s, 4) == (s[0] == 0 && s[1] == 0 && s[2] == 0 && s[3] == 0));
            assert(zero_below(s, 5) == (zero_below(s, 4) && s[4] == 0));
            assert(zero_below(s, 6) == (zero_below(s, 4) && s[4] == 0 && s[5] == 0));
            assert(zero_below(s, 7) == (zero_below(s, 4) && s[4] == 0 && s[5] == 0 && s[6] == 0));
            assert(r@ =~= e);
        }
        r
    }

    /// Each column reduced to its lowest set row (zero for an empty column).
    pub fn lsb_u16x8(&self) -> (r: Self)
        ensures
            r@ == Seq::new(8, |i: int| lowbit16(self@[i])),
    {
        // lowest set bit of k: k & -k, where -k = !k + 1 in each lane
        let inv = *self ^ Self::full_mask();
        let minus = BoardBits { lo: add_one_per_lane(inv.lo), hi: add_one_per_lane(inv.hi) };
        let r = *self & minus;
        proof {
            lemma_lanes_add_one(inv.lo);
            lemma_lanes_add_one(inv.hi);
            assert forall|i: int| 0 <= i < 8 implies minus@[i] == (inv@[i] + 1) as u16 by {
                if i < 4 {
                    assert(minus@[i] == lane16(minus.lo, i));
                } else {
                    assert(minus@[i] == lane16(minus.hi, i - 4));
                }
            }
            assert forall|i: int| 0 <= i < 8 implies r@[i] == lowbit16(self@[i]) by {
                let l = self@[i];
                assert(inv@[i] == l ^ 0xFFFFu16);
                lemma_u16_identities(l, 0);
            }
            assert(r@ =~= Seq::new(8, |i: int| lowbit16(self@[i])));
        }
        r
    }

    /// The largest of the eight columns, each read as a 16-bit number.
    pub fn max_u16x8(&self) -> (r: u16)
        ensures
            forall|i: int| 0 <= i < 8 ==> self@[i] <= r,
            exists|i: int| 0 <= i < 8 && self@[i] == r,
    {
        let lanes = self.to_u16x8();
        let mut m = lanes[0];
        let mut i: usize = 1;
        while i < 8
            invariant
                1 <= i <= 8,
                lanes@ == self@,
                forall|j: int| 0 <= j < i ==> lanes@[j] <= m,
                exists|j: int| 0 <= j < i && lanes@[j] == m,
            decreases 8 - i,
        {
            if lanes[i] > m {
                m = lanes[i];
            }
            i = i + 1;
        }
        m
    }

    /// The number of set rows of each column, one count per lane.
    pub fn popcount_u16x8(a: Self) -> (r: Self)
        ensures
            r@ == Seq::new(8, |i: int| popcnt(a@[i] as nat) as u16),
    {
        let l = a.to_u16x8();
        let r = Self::from_u16x8(
            [
                popcount_word(l[0] as u64) as u16,
                popcount_word(l[1] as u64) as u16,
                popcount_word(l[2] as u64) as u16,
                popcount_word(l[3] as u64) as u16,
                popcount_word(l[4] as u64) as u16,
                popcount_word(l[5] as u64) as u16,
                popcount_word(l[6] as u64) as u16,
                popcount_word(l[7] as u64) as u16,
            ],
        );
        assert(r@ =~= Seq::new(8, |i: int| popcnt(a@[i] as nat) as u16));
        r
    }

    /// The board's complement as two words: the cells that `popped` does not hold.
    pub fn before_pop_mask(popped: Self) -> (r: (u64, u64))
        ensures
            lanes_of(r.0, r.1) == before_pop_lanes(popped@),
    {
        let t = popped ^ Self::full_mask();
        proof {
            assert forall|i: int| 0 <= i < 8 implies t@[i] == !popped@[i] by {
                let l = popped@[i];
                lemma_u16_identities(l, 0);
            }
            assert(t@ =~= before_pop_lanes(popped@));
        }
        (t.lo, t.hi)
    }

    /// For each column, the mask of its low `16 - c` rows, where `c` is the
    /// number of cells that `popped` holds in that column.
    pub fn after_pop_mask(popped: Self) -> (r: (u64, u64))
        ensures
            lanes_of(r.0, r.1) == after_pop_lanes(popped@),
    {
        let counts = Self::popcount_u16x8(popped);
        let c = counts.to_u16x8();
        proof {
            assert forall|i: int| 0 <= i < 8 implies c@[i] <= 16 by {
                lemma_lane_popcnt_bound(popped@[i]);
            }
        }
        let m = Self::from_u16x8(
            [
                (0xFFFFu32 >> (c[0] as u32)) as u16,
                (0xFFFFu32 >> (c[1] as u32)) as u16,
                (0xFFFFu32 >> (c[2] as u32)) as u16,
                (0xFFFFu32 >> (c[3] as u32)) as u16,
                (0xFFFFu32 >> (c[4] as u32)) as u16,
                (0xFFFFu32 >> (c[5] as u32)) as u16,
                (0xFFFFu32 >> (c[6] as u32)) as u16,
                (0xFFFFu32 >> (c[7] as u32)) as u16,
            ],
        );
        proof {
            assert forall|i: int| 0 <= i < 8 implies c@[i] == popcnt(popped@[i] as nat) by {
                lemma_lane_popcnt_bound(popped@[i]);
            }
            assert(m@ =~= after_pop_lanes(popped@));
        }
        (m.lo, m.hi)
    }
}

} // verus!
