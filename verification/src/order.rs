//! The order in which the engine visits and lists cells. The rule of the
//! game speaks of sets; the engine keeps lists, and what it reports depends
//! on their order. This module fixes that order and shows that the lists
//! hold exactly the cells that the rule names.

use crate::field::{adjacent, Coord, Field};
use vstd::prelude::*;

verus! {

/// The list with every repeated item dropped: of equal items the first
/// stays, and the items that stay keep their order.
pub open spec fn first_occurrences<A>(items: Seq<A>) -> Seq<A>
    decreases items.len(),
{
    if items.len() == 0 {
        Seq::empty()
    } else {
        let before = first_occurrences(items.drop_last());
        if before.contains(items.last()) {
            before
        } else {
            before.push(items.last())
        }
    }
}

/// The position itself if it is a dead cell of the field, else nothing.
pub open spec fn dead_spot(field: Field, at: Coord) -> Seq<Coord> {
    if field.dead(at) {
        seq![at]
    } else {
        Seq::empty()
    }
}

/// The dead cells around `at`, row by row from the upper left to the lower
/// right.
pub open spec fn dead_neighbours(field: Field, at: Coord) -> Seq<Coord> {
    dead_spot(field, (at.0 - 1, at.1 - 1)) + dead_spot(field, (at.0 - 1, at.1)) + dead_spot(
        field,
        (at.0 - 1, at.1 + 1),
    ) + dead_spot(field, (at.0, at.1 - 1)) + dead_spot(field, (at.0, at.1 + 1)) + dead_spot(
        field,
        (at.0 + 1, at.1 - 1),
    ) + dead_spot(field, (at.0 + 1, at.1)) + dead_spot(field, (at.0 + 1, at.1 + 1))
}

/// The dead neighbours of each listed cell in turn, repeats included.
pub open spec fn dead_fringe(field: Field, cells: Seq<Coord>) -> Seq<Coord>
    decreases cells.len(),
{
    if cells.len() == 0 {
        Seq::empty()
    } else {
        dead_fringe(field, cells.drop_last()) + dead_neighbours(field, cells.last())
    }
}

/// The cells that are judged for birth: each dead neighbour of a listed
/// cell once, in the order in which it is first met.
pub open spec fn candidates(field: Field, cells: Seq<Coord>) -> Seq<Coord> {
    first_occurrences(dead_fringe(field, cells))
}

/// The test of the rule for birth, as a predicate on positions.
pub open spec fn is_born(field: Field) -> spec_fn(Coord) -> bool {
    |at: Coord| field.born(at)
}

/// The test of the rule for death, as a predicate on positions.
pub open spec fn is_dying(field: Field) -> spec_fn(Coord) -> bool {
    |at: Coord| field.dies(at)
}

/// The test of the rule for survival, as a predicate on positions.
pub open spec fn is_surviving(field: Field) -> spec_fn(Coord) -> bool {
    |at: Coord| field.survives(at)
}

/// The cells that come alive, in the order of the candidates.
pub open spec fn births(field: Field, cells: Seq<Coord>) -> Seq<Coord> {
    candidates(field, cells).filter(is_born(field))
}

/// The listed cells that die, in the order of the list.
pub open spec fn deaths(field: Field, cells: Seq<Coord>) -> Seq<Coord> {
    cells.filter(is_dying(field))
}

/// The listed cells that stay alive, in the order of the list.
pub open spec fn survivors(field: Field, cells: Seq<Coord>) -> Seq<Coord> {
    cells.filter(is_surviving(field))
}

/// The list of live cells of the next generation: the survivors, then the
/// births.
pub open spec fn next_cells(field: Field, cells: Seq<Coord>) -> Seq<Coord> {
    survivors(field, cells) + births(field, cells)
}

/// Dropping repeats keeps every item that occurs, and leaves no item twice.
pub proof fn lemma_first_occurrences<A>(items: Seq<A>)
    ensures
        first_occurrences(items).no_duplicates(),
        forall|item: A| #[trigger] first_occurrences(items).contains(item) <==> items.contains(item),
    decreases items.len(),
{
    if items.len() > 0 {
        let front = items.drop_last();
        let before = first_occurrences(front);
        lemma_first_occurrences(front);
        assert forall|item: A| #[trigger]
            first_occurrences(items).contains(item) <==> items.contains(item) by {
            lemma_contains_push(before, items.last(), item);
            assert(items =~= front.push(items.last()));
            lemma_contains_push(front, items.last(), item);
        }
    }
}

/// A list that is not empty holds what all but its last item hold, and the
/// last item.
pub proof fn lemma_contains_last<A>(items: Seq<A>, item: A)
    requires
        items.len() > 0,
    ensures
        items.contains(item) <==> items.drop_last().contains(item) || item == items.last(),
{
    assert(items =~= items.drop_last().push(items.last()));
    lemma_contains_push(items.drop_last(), items.last(), item);
}

proof fn lemma_contains_push<A>(items: Seq<A>, last: A, item: A)
    ensures
        items.push(last).contains(item) <==> items.contains(item) || item == last,
{
    let all = items.push(last);
    if items.contains(item) {
        let i = choose|i: int| 0 <= i < items.len() && items[i] == item;
        assert(all[i] == item);
    }
    if item == last {
        assert(all[items.len() as int] == item);
    }
}

/// The dead neighbours of a cell are the dead cells of the field that touch it.
pub proof fn lemma_dead_neighbours_contains(field: Field, at: Coord, other: Coord)
    ensures
        dead_neighbours(field, at).contains(other) <==> field.dead(other) && adjacent(other, at),
{
    let a = dead_spot(field, (at.0 - 1, at.1 - 1));
    let b = dead_spot(field, (at.0 - 1, at.1));
    let c = dead_spot(field, (at.0 - 1, at.1 + 1));
    let d = dead_spot(field, (at.0, at.1 - 1));
    let e = dead_spot(field, (at.0, at.1 + 1));
    let f = dead_spot(field, (at.0 + 1, at.1 - 1));
    let g = dead_spot(field, (at.0 + 1, at.1));
    let h = dead_spot(field, (at.0 + 1, at.1 + 1));
    lemma_contains_add(a, b, other);
    lemma_contains_add(a + b, c, other);
    lemma_contains_add(a + b + c, d, other);
    lemma_contains_add(a + b + c + d, e, other);
    lemma_contains_add(a + b + c + d + e, f, other);
    lemma_contains_add(a + b + c + d + e + f, g, other);
    lemma_contains_add(a + b + c + d + e + f + g, h, other);
    lemma_dead_spot_contains(field, (at.0 - 1, at.1 - 1), other);
    lemma_dead_spot_contains(field, (at.0 - 1, at.1), other);
    lemma_dead_spot_contains(field, (at.0 - 1, at.1 + 1), other);
    lemma_dead_spot_contains(field, (at.0, at.1 - 1), other);
    lemma_dead_spot_contains(field, (at.0, at.1 + 1), other);
    lemma_dead_spot_contains(field, (at.0 + 1, at.1 - 1), other);
    lemma_dead_spot_contains(field, (at.0 + 1, at.1), other);
    lemma_dead_spot_contains(field, (at.0 + 1, at.1 + 1), other);
}

/// The fringe of a list holds the dead cells of the field that touch a
/// listed cell.
pub proof fn lemma_dead_fringe_contains(field: Field, cells: Seq<Coord>, at: Coord)
    ensures
        dead_fringe(field, cells).contains(at) <==> field.dead(at) && exists|i: int|
            0 <= i < cells.len() && adjacent(at, #[trigger] cells[i]),
    decreases cells.len(),
{
    if cells.len() > 0 {
        let front = cells.drop_last();
        lemma_dead_fringe_contains(field, front, at);
        lemma_dead_neighbours_contains(field, cells.last(), at);
        lemma_contains_add(dead_fringe(field, front), dead_neighbours(field, cells.last()), at);
        if dead_fringe(field, front).contains(at) {
            let i = choose|i: int| 0 <= i < front.len() && adjacent(at, #[trigger] front[i]);
            assert(adjacent(at, cells[i]));
        }
        if dead_neighbours(field, cells.last()).contains(at) {
            assert(adjacent(at, cells[cells.len() - 1]));
        }
        if exists|i: int| 0 <= i < cells.len() && adjacent(at, #[trigger] cells[i]) {
            let i = choose|i: int| 0 <= i < cells.len() && adjacent(at, #[trigger] cells[i]);
            if i < front.len() {
                assert(adjacent(at, front[i]));
            }
        }
    }
}

/// A cell that counts a live neighbour touches a live cell of the field.
pub proof fn lemma_live_neighbour_exists(field: Field, at: Coord)
    requires
        field.live_neighbours(at) > 0,
    ensures
        exists|other: Coord| #[trigger] field.alive(other) && adjacent(at, other),
{
    if field.alive((at.0 - 1, at.1 - 1)) {
        assert(adjacent(at, (at.0 - 1, at.1 - 1)));
    } else if field.alive((at.0 - 1, at.1)) {
        assert(adjacent(at, (at.0 - 1, at.1)));
    } else if field.alive((at.0 - 1, at.1 + 1)) {
        assert(adjacent(at, (at.0 - 1, at.1 + 1)));
    } else if field.alive((at.0, at.1 - 1)) {
        assert(adjacent(at, (at.0, at.1 - 1)));
    } else if field.alive((at.0, at.1 + 1)) {
        assert(adjacent(at, (at.0, at.1 + 1)));
    } else if field.alive((at.0 + 1, at.1 - 1)) {
        assert(adjacent(at, (at.0 + 1, at.1 - 1)));
    } else if field.alive((at.0 + 1, at.1)) {
        assert(adjacent(at, (at.0 + 1, at.1)));
    } else {
        assert(field.alive((at.0 + 1, at.1 + 1)));
        assert(adjacent(at, (at.0 + 1, at.1 + 1)));
    }
}

/// A filtered list holds the items of the list that pass the test.
pub proof fn lemma_filter_holds<A>(items: Seq<A>, test: spec_fn(A) -> bool, item: A)
    ensures
        items.filter(test).contains(item) <==> items.contains(item) && test(item),
{
    let kept = items.filter(test);
    if kept.contains(item) {
        let i = choose|i: int| 0 <= i < kept.len() && kept[i] == item;
        items.lemma_filter_pred(test, i);
        items.lemma_filter_contains_rev(test, item);
    }
    if items.contains(item) && test(item) {
        let i = choose|i: int| 0 <= i < items.len() && items[i] == item;
        items.lemma_filter_contains(test, i);
    }
}

/// Filtering one item more of a list either appends that item or changes
/// nothing.
pub proof fn lemma_filter_next<A>(items: Seq<A>, test: spec_fn(A) -> bool, i: int)
    requires
        0 <= i < items.len(),
    ensures
        items.take(i + 1).filter(test) == if test(items[i]) {
            items.take(i).filter(test).push(items[i])
        } else {
            items.take(i).filter(test)
        },
{
    assert(items.take(i + 1) =~= items.take(i).push(items[i]));
    items.take(i).lemma_filter_push(items[i], test);
}

/// Filtering a list without repeats leaves a list without repeats.
pub proof fn lemma_filter_no_duplicates<A>(items: Seq<A>, test: spec_fn(A) -> bool)
    requires
        items.no_duplicates(),
    ensures
        items.filter(test).no_duplicates(),
    decreases items.len(),
{
    reveal(Seq::filter);
    if items.len() > 0 {
        let front = items.drop_last();
        lemma_filter_no_duplicates(front, test);
        if test(items.last()) {
            if front.filter(test).contains(items.last()) {
                lemma_filter_holds(front, test, items.last());
                let i = choose|i: int| 0 <= i < front.len() && front[i] == items.last();
                assert(items[i] == items[items.len() - 1]);
            }
        }
    }
}

/// Where the list names the live cells of the field, the candidates hold
/// every cell that the rule lets be born, so that the list of the next
/// generation names exactly the cells that the rule keeps or brings alive.
pub proof fn lemma_next_cells(field: Field, cells: Seq<Coord>)
    requires
        field.live == cells.to_set(),
    ensures
        forall|at: Coord| #[trigger] survivors(field, cells).contains(at) <==> field.survives(at),
        forall|at: Coord| #[trigger] deaths(field, cells).contains(at) <==> field.dies(at),
        forall|at: Coord| #[trigger] births(field, cells).contains(at) <==> field.born(at),
        next_cells(field, cells).to_set() == field.step().live,
        cells.no_duplicates() ==> next_cells(field, cells).no_duplicates(),
{
    assert forall|at: Coord| #[trigger]
        survivors(field, cells).contains(at) <==> field.survives(at) by {
        lemma_filter_holds(cells, is_surviving(field), at);
    }
    assert forall|at: Coord| #[trigger] deaths(field, cells).contains(at) <==> field.dies(at) by {
        lemma_filter_holds(cells, is_dying(field), at);
    }
    assert forall|at: Coord| #[trigger] births(field, cells).contains(at) <==> field.born(at) by {
        lemma_filter_holds(candidates(field, cells), is_born(field), at);
        lemma_first_occurrences(dead_fringe(field, cells));
        lemma_dead_fringe_contains(field, cells, at);
        if field.born(at) {
            lemma_live_neighbour_exists(field, at);
            let other = choose|other: Coord| #[trigger] field.alive(other) && adjacent(at, other);
            assert(cells.contains(other));
            let i = choose|i: int| 0 <= i < cells.len() && cells[i] == other;
            assert(adjacent(at, cells[i]));
        }
    }
    assert forall|at: Coord|
        next_cells(field, cells).to_set().contains(at) <==> field.step().live.contains(at) by {
        lemma_contains_add(survivors(field, cells), births(field, cells), at);
    }
    assert(next_cells(field, cells).to_set() =~= field.step().live);
    if cells.no_duplicates() {
        let kept = survivors(field, cells);
        let fresh = births(field, cells);
        lemma_filter_no_duplicates(cells, is_surviving(field));
        lemma_first_occurrences(dead_fringe(field, cells));
        lemma_filter_no_duplicates(candidates(field, cells), is_born(field));
        assert forall|i: int, j: int| 0 <= i < kept.len() && 0 <= j < fresh.len() implies kept[i]
            != fresh[j] by {
            assert(kept.contains(kept[i]));
            assert(fresh.contains(fresh[j]));
        }
        vstd::seq_lib::lemma_no_dup_in_concat(kept, fresh);
    }
}

proof fn lemma_dead_spot_contains(field: Field, at: Coord, other: Coord)
    ensures
        dead_spot(field, at).contains(other) <==> field.dead(at) && other == at,
{
    if field.dead(at) {
        assert(seq![at][0] == at);
    }
}

proof fn lemma_contains_add<A>(left: Seq<A>, right: Seq<A>, item: A)
    ensures
        (left + right).contains(item) <==> left.contains(item) || right.contains(item),
{
    let both = left + right;
    if left.contains(item) {
        let i = choose|i: int| 0 <= i < left.len() && left[i] == item;
        assert(both[i] == item);
    }
    if right.contains(item) {
        let i = choose|i: int| 0 <= i < right.len() && right[i] == item;
        assert(both[left.len() + i] == item);
    }
    if both.contains(item) {
        let i = choose|i: int| 0 <= i < both.len() && both[i] == item;
        if i < left.len() {
            assert(left[i] == item);
        } else {
            assert(right[i - left.len()] == item);
        }
    }
}

} // verus!
