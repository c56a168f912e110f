//! std's operator and conversion traits on `BoardBits`.
use vstd::prelude::*;
use vstd::std_specs::convert::{FromSpec, FromSpecImpl, IntoSpec, IntoSpecImpl};
use vstd::string::StringSliceAdditionalSpecFns;
use vstd::std_specs::ops::{BitAndSpecImpl, BitOrSpecImpl, BitXorSpecImpl};

use crate::board::BoardBits;
use crate::lanes::{lanes_of, lemma_bit16_ops, lemma_lanes_bitwise};
use crate::{ENTIRE_HEIGHT, WIDTH};

verus! {

impl std::ops::BitAnd for BoardBits {
    type Output = Self;

    /// Cells set in both boards.
    fn bitand(self, rhs: Self) -> (r: Self)
        ensures
            r@ == Seq::new(8, |i: int| self@[i] & rhs@[i]),
            forall|x: int, y: int| #[trigger] r.cell(x, y) == (self.cell(x, y) && rhs.cell(x, y)),
    {
        let r = BoardBits { lo: self.lo & rhs.lo, hi: self.hi & rhs.hi };
        proof {
            lemma_lanes_bitwise(self.lo, rhs.lo);
            lemma_lanes_bitwise(self.hi, rhs.hi);
            assert(r@ =~= Seq::new(8, |i: int| self@[i] & rhs@[i]));
            assert forall|x: int, y: int| #[trigger] r.cell(x, y) == (self.cell(x, y) && rhs.cell(x, y)) by {
                if 0 <= x < 8 {
                    lemma_bit16_ops(self@[x], rhs@[x]);
                    assert(r@[x] == self@[x] & rhs@[x]);
                }
            }
        }
        r
    }
}

impl BitAndSpecImpl for BoardBits {
    open spec fn obeys_bitand_spec() -> bool {
        true
    }

    open spec fn bitand_req(self, rhs: Self) -> bool {
        true
    }

    open spec fn bitand_spec(self, rhs: Self) -> Self {
        BoardBits { lo: self.lo & rhs.lo, hi: self.hi & rhs.hi }
    }
}

impl std::ops::BitOr for BoardBits {
    type Output = Self;

    /// Cells set in either board.
    fn bitor(self, rhs: Self) -> (r: Self)
        ensures
            r@ == Seq::new(8, |i: int| self@[i] | rhs@[i]),
            forall|x: int, y: int| #[trigger] r.cell(x, y) == (self.cell(x, y) || rhs.cell(x, y)),
    {
        let r = BoardBits { lo: self.lo | rhs.lo, hi: self.hi | rhs.hi };
        proof {
            lemma_lanes_bitwise(self.lo, rhs.lo);
            lemma_lanes_bitwise(self.hi, rhs.hi);
            assert(r@ =~= Seq::new(8, |i: int| self@[i] | rhs@[i]));
            assert forall|x: int, y: int| #[trigger] r.cell(x, y) == (self.cell(x, y) || rhs.cell(x, y)) by {
                if 0 <= x < 8 {
                    lemma_bit16_ops(self@[x], rhs@[x]);
                    assert(r@[x] == self@[x] | rhs@[x]);
                }
            }
        }
        r
    }
}

impl BitOrSpecImpl for BoardBits {
    open spec fn obeys_bitor_spec() -> bool {
        true
    }

    open spec fn bitor_req(self, rhs: Self) -> bool {
        true
    }

    open spec fn bitor_spec(self, rhs: Self) -> Self {
        BoardBits { lo: self.lo | rhs.lo, hi: self.hi | rhs.hi }
    }
}

impl std::ops::BitXor for BoardBits {
    type Output = Self;

    /// Cells set in exactly one of the boards.
    fn bitxor(self, rhs: Self) -> (r: Self)
        ensures
            r@ == Seq::new(8, |i: int| self@[i] ^ rhs@[i]),
            forall|x: int, y: int| #[trigger] r.cell(x, y) == (self.cell(x, y) != rhs.cell(x, y)),
    {
        let r = BoardBits { lo: self.lo ^ rhs.lo, hi: self.hi ^ rhs.hi };
        proof {
            lemma_lanes_bitwise(self.lo, rhs.lo);
            lemma_lanes_bitwise(self.hi, rhs.hi);
            assert(r@ =~= Seq::new(8, |i: int| self@[i] ^ rhs@[i]));
            assert forall|x: int, y: int| #[trigger] r.cell(x, y) == (self.cell(x, y) != rhs.cell(x, y)) by {
                if 0 <= x < 8 {
                    lemma_bit16_ops(self@[x], rhs@[x]);
                    assert(r@[x] == self@[x] ^ rhs@[x]);
                }
            }
        }
        r
    }
}

impl BitXorSpecImpl for BoardBits {
    open spec fn obeys_bitxor_spec() -> bool {
        true
    }

    open spec fn bitxor_req(self, rhs: Self) -> bool {
        true
    }

    open spec fn bitxor_spec(self, rhs: Self) -> Self {
        BoardBits { lo: self.lo ^ rhs.lo, hi: self.hi ^ rhs.hi }
    }
}

/// In the board drawn by `bytes`, the cell at column `x`, row `y` is set.
///
/// The text is cut into rows of `WIDTH` bytes, the top row first and the
/// bottom row (row 1) last; a shorter last piece is row 1 with its missing
/// cells empty. Column 1 is the first byte of a row, and a cell is set where
/// its byte is `'1'`.
pub open spec fn text_cell(bytes: Seq<u8>, x: int, y: int) -> bool {
    let rows = (bytes.len() + WIDTH - 1) / (WIDTH as int);
    let i = WIDTH * (rows - y) + (x - 1);
    &&& 1 <= x <= WIDTH
    &&& 1 <= y <= rows
    &&& i < bytes.len()
    &&& bytes[i] == 0x31u8
}

/// The board drawn by `bytes`, rows above the top of the board dropped.
pub open spec fn text_board(bytes: Seq<u8>, b: BoardBits) -> bool {
    forall|x: int, y: int| #[trigger] b.cell(x, y) == (y < ENTIRE_HEIGHT && text_cell(bytes, x, y))
}

impl From<&'static str> for BoardBits {
    /// The board drawn by the text `value`, rows of `WIDTH` cells from the top
    /// row down to row 1, `'1'` for a set cell and any other byte for an
    /// empty one. Rows above the top of the board are dropped.
    fn from(value: &'static str) -> (r: Self)
        ensures
            text_board(value.spec_bytes(), r),
    {
        let bytes = value.as_bytes();
        let len = bytes.len();
        let rows = len / WIDTH + if len % WIDTH == 0 {
            0
        } else {
            1
        };
        let top = if rows < ENTIRE_HEIGHT - 1 {
            rows
        } else {
            ENTIRE_HEIGHT - 1
        };
        let ghost text = bytes@;
        assert(rows == (text.len() + WIDTH - 1) / (WIDTH as int));
        let mut bb = Self::zero();
        let mut y: usize = 1;
        while y <= top
            invariant
                1 <= y <= top + 1,
                top <= rows,
                top <= ENTIRE_HEIGHT - 1,
                rows < ENTIRE_HEIGHT - 1 ==> top == rows,
                text == bytes@,
                len == text.len(),
                rows == (text.len() + WIDTH - 1) / (WIDTH as int),
                forall|cx: int, cy: int| #[trigger]
                    bb.cell(cx, cy) == (cy < y && text_cell(text, cx, cy)),
            decreases top + 1 - y,
        {
            let start = WIDTH * (rows - y);
            assert(start < len);
            let mut x: usize = 1;
            while x <= WIDTH
                invariant
                    1 <= x <= WIDTH + 1,
                    1 <= y <= top,
                    top <= rows,
                    top <= ENTIRE_HEIGHT - 1,
                    text == bytes@,
                    len == text.len(),
                    rows == (text.len() + WIDTH - 1) / (WIDTH as int),
                    start == WIDTH * (rows - y),
                    start < len,
                    forall|cx: int, cy: int| #[trigger]
                        bb.cell(cx, cy) == ((cy < y || (cy == y && cx < x)) && text_cell(
                            text,
                            cx,
                            cy,
                        )),
                decreases WIDTH + 1 - x,
            {
                let off = x - 1;
                if off < len - start && bytes[start + off] == 0x31u8 {
                    bb.set_1(x, y);
                }
                x = x + 1;
            }
            y = y + 1;
        }
        proof {
            let r = bb;
            let b = choose|b: BoardBits| text_board(text, b);
            assert(text_board(text, r));
            assert(text_board(text, b));
            assert forall|x: int, y: int| 0 <= x < 8 && 0 <= y < 16 implies b.cell(x, y)
                == r.cell(x, y) by {
                assert(b.cell(x, y) == (y < ENTIRE_HEIGHT && text_cell(text, x, y)));
            }
            BoardBits::lemma_cells_determine(b, r);
        }
        bb
    }
}

impl FromSpecImpl<&'static str> for BoardBits {
    open spec fn obeys_from_spec() -> bool {
        true
    }

    open spec fn from_spec(v: &'static str) -> Self {
        choose|b: BoardBits| text_board(v.spec_bytes(), b)
    }
}

impl From<(u64, u64)> for BoardBits {
    /// The board whose low and high words are `value.0` and `value.1`.
    fn from(value: (u64, u64)) -> (r: Self)
        ensures
            r@ == lanes_of(value.0, value.1),
    {
        BoardBits { lo: value.0, hi: value.1 }
    }
}

impl FromSpecImpl<(u64, u64)> for BoardBits {
    open spec fn obeys_from_spec() -> bool {
        true
    }

    open spec fn from_spec(v: (u64, u64)) -> Self {
        BoardBits { lo: v.0, hi: v.1 }
    }
}

impl Into<(u64, u64)> for BoardBits {
    /// The board's low and high words.
    fn into(self) -> (u64, u64) {
        (self.lo, self.hi)
    }
}

impl IntoSpecImpl<(u64, u64)> for BoardBits {
    open spec fn obeys_into_spec() -> bool {
        true
    }

    open spec fn into_spec(self) -> (u64, u64) {
        (self.lo, self.hi)
    }
}

/// A board turned into its two words and back is the same board, and two
/// words turned into a board and back are the same words.
pub proof fn lemma_words_round_trip(b: BoardBits, v: (u64, u64))
    ensures
        <BoardBits as FromSpec<(u64, u64)>>::from_spec(
            <BoardBits as IntoSpec<(u64, u64)>>::into_spec(b),
        ) == b,
        <BoardBits as IntoSpec<(u64, u64)>>::into_spec(
            <BoardBits as FromSpec<(u64, u64)>>::from_spec(v),
        ) == v,
{
}

/// Reading a drawing of `n` full rows of `WIDTH` bytes (fewer than
/// `ENTIRE_HEIGHT` rows): cell `(x, y)`, for column `x` in 1 to `WIDTH` and
/// row `y` in 1 to `n`, is set exactly when byte `(n - y) * WIDTH + (x - 1)`
/// is `'1'`, row `n` being the first row of the text and row 1 the last; no
/// other cell is set.
pub proof fn lemma_text_rows_read_bottom_up(bytes: Seq<u8>, n: nat, b: BoardBits)
    requires
        bytes.len() == WIDTH * n,
        n < ENTIRE_HEIGHT,
        text_board(bytes, b),
    ensures
        forall|x: int, y: int|
            1 <= x <= WIDTH && 1 <= y <= n ==> (#[trigger] b.cell(x, y) <==> bytes[(n - y) * WIDTH
                + (x - 1)] == 0x31u8),
        forall|x: int, y: int|
            #[trigger] b.cell(x, y) ==> 1 <= x <= WIDTH && 1 <= y <= n,
{
    assert((bytes.len() + WIDTH - 1) / (WIDTH as int) == n);
    assert forall|x: int, y: int|
        1 <= x <= WIDTH && 1 <= y <= n implies (#[trigger] b.cell(x, y) <==> bytes[(n - y) * WIDTH
            + (x - 1)] == 0x31u8) by {
        assert(b.cell(x, y) == (y < ENTIRE_HEIGHT && text_cell(bytes, x, y)));
        assert(WIDTH * (n - y) + (x - 1) < bytes.len());
        assert(WIDTH * (n - y) == (n - y) * WIDTH);
    }
    assert forall|x: int, y: int| #[trigger] b.cell(x, y) implies 1 <= x <= WIDTH && 1 <= y <= n by {
        assert(b.cell(x, y) == (y < ENTIRE_HEIGHT && text_cell(bytes, x, y)));
    }
}

} // verus!
