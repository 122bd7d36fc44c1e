//! Cells as the engine stores them: a pair `[row, column]` of `u16`.

use crate::field::Coord;
use crate::order::first_occurrences;
use itertools::Itertools;
use vstd::prelude::*;

verus! {

/// The position that a stored cell stands for.
pub open spec fn coord_of(cell: [u16; 2]) -> Coord {
    (cell[0] as int, cell[1] as int)
}

/// The positions that a list of stored cells stands for, in the same order.
pub open spec fn coords(cells: Seq<[u16; 2]>) -> Seq<Coord> {
    Seq::new(cells.len(), |i: int| coord_of(cells[i]))
}

/// Two stored cells that stand for the same position are the same cell.
pub proof fn lemma_coord_of_injective(a: [u16; 2], b: [u16; 2])
    requires
        coord_of(a) == coord_of(b),
    ensures
        a == b,
{
    assert(a =~= b);
}

/// Dropping repeated cells and dropping repeated positions come to the same.
pub proof fn lemma_coords_first_occurrences(cells: Seq<[u16; 2]>)
    ensures
        coords(first_occurrences(cells)) == first_occurrences(coords(cells)),
    decreases cells.len(),
{
    if cells.len() == 0 {
        assert(coords(first_occurrences(cells)) =~= first_occurrences(coords(cells)));
    } else {
        let front = cells.drop_last();
        let last = cells.last();
        let before = first_occurrences(front);
        lemma_coords_first_occurrences(front);
        assert(coords(cells).drop_last() =~= coords(front));
        assert(coords(cells).last() == coord_of(last));
        if before.contains(last) {
            let i = choose|i: int| 0 <= i < before.len() && before[i] == last;
            assert(coords(before)[i] == coord_of(last));
        }
        if coords(before).contains(coord_of(last)) {
            let i = choose|i: int| 0 <= i < before.len() && coords(before)[i] == coord_of(last);
            lemma_coord_of_injective(before[i], last);
        }
        assert(coords(before.push(last)) =~= coords(before).push(coord_of(last)));
    }
}

/// `Itertools::unique` on the cells of a list, collected into a new list.
/// It yields each item that the list has not yielded before, in the order
/// of the list, so of equal cells the first stays. Nothing of this is
/// proved here: it is what the documentation of itertools promises.
#[verifier::external_body]
pub(crate) fn unique_cells(cells: Vec<[u16; 2]>) -> (kept: Vec<[u16; 2]>)
    ensures
        kept@ == first_occurrences(cells@),
{
    cells.into_iter().unique().collect()
}

} // verus!
