//! Equality of boards.
use vstd::prelude::*;
use vstd::std_specs::cmp::{PartialEqSpec, PartialEqSpecImpl};

use crate::board::{zero_lanes, BoardBits};
use crate::lanes::lemma_u16_identities;

verus! {

impl PartialEq for BoardBits {
    /// Two boards are equal when they hold the same cells.
    fn eq(&self, other: &Self) -> (r: bool) {
        let d = *self ^ *other;
        proof {
            assert forall|i: int| 0 <= i < 8 implies (d@[i] == 0u16) == (self@[i] == other@[i]) by {
                let a = self@[i];
                let b = other@[i];
                assert(d@[i] == a ^ b);
                lemma_u16_identities(a, b);
            }
            if self@ == other@ {
                assert(d@ =~= zero_lanes());
            } else {
                assert(!(self@ =~= other@));
                let i = choose|i: int| 0 <= i < 8 && self@[i] != other@[i];
                assert(d@[i] != zero_lanes()[i]);
            }
        }
        d.is_zero()
    }
}

impl PartialEqSpecImpl for BoardBits {
    open spec fn obeys_eq_spec() -> bool {
        true
    }

    open spec fn eq_spec(&self, other: &Self) -> bool {
        self@ == other@
    }
}

/// `==` on boards compares every cell: two boards are equal exactly when
/// each cell of the 8 by 16 board is set in both or in neither.
pub proof fn lemma_eq_compares_all_cells(a: BoardBits, b: BoardBits)
    ensures
        <BoardBits as PartialEqSpec>::eq_spec(&a, &b) <==> (forall|x: int, y: int|
            0 <= x < 8 && 0 <= y < 16 ==> #[trigger] a.cell(x, y) == b.cell(x, y)),
{
    BoardBits::lemma_cells_determine(a, b);
    if <BoardBits as PartialEqSpec>::eq_spec(&a, &b) {
        BoardBits::lemma_view_injective(a, b);
    }
}

} // verus!
