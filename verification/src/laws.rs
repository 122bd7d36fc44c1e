//! What follows from the rule of the game, for every field and every
//! position: how the edges bound the count, when a cell is born, and how
//! three well-known patterns behave.

use crate::field::{adjacent, Coord, Field};
use crate::game::GameView;
use vstd::prelude::*;

verus! {

/// The position lies in the first or last row or column of the field.
pub open spec fn on_edge(field: Field, at: Coord) -> bool {
    at.0 == 0 || at.0 == field.rows - 1 || at.1 == 0 || at.1 == field.cols - 1
}

/// The position lies in the first or last row and in the first or last
/// column of the field.
pub open spec fn in_corner(field: Field, at: Coord) -> bool {
    (at.0 == 0 || at.0 == field.rows - 1) && (at.1 == 0 || at.1 == field.cols - 1)
}

/// The square of four cells whose upper left cell is `(r, c)`.
pub open spec fn block(r: int, c: int) -> Set<Coord> {
    set![(r, c), (r, c + 1), (r + 1, c), (r + 1, c + 1)]
}

/// Three cells in a row around `(r, c)`.
pub open spec fn blinker_flat(r: int, c: int) -> Set<Coord> {
    set![(r, c - 1), (r, c), (r, c + 1)]
}

/// Three cells in a column around `(r, c)`.
pub open spec fn blinker_upright(r: int, c: int) -> Set<Coord> {
    set![(r - 1, c), (r, c), (r + 1, c)]
}

/// The edges are hard. No cell counts more than eight live neighbours, a
/// cell on an edge of the field counts at most five, and a cell in a corner
/// at most three.
pub proof fn lemma_edges_bound_the_count(field: Field, at: Coord)
    requires
        field.in_bounds(at),
    ensures
        0 <= field.live_neighbours(at) <= 8,
        on_edge(field, at) ==> field.live_neighbours(at) <= 5,
        in_corner(field, at) ==> field.live_neighbours(at) <= 3,
{
}

/// Nothing outside the field is ever counted: two fields of the same extent
/// whose cells inside the field agree give every position the same count.
pub proof fn lemma_outside_is_not_counted(one: Field, other: Field, at: Coord)
    requires
        one.rows == other.rows,
        one.cols == other.cols,
        forall|inner: Coord|
            #![trigger one.live.contains(inner)]
            #![trigger other.live.contains(inner)]
            one.in_bounds(inner) ==> (one.live.contains(inner) <==> other.live.contains(inner)),
    ensures
        one.live_neighbours(at) == other.live_neighbours(at),
{
    assert(one.tally((at.0 - 1, at.1 - 1)) == other.tally((at.0 - 1, at.1 - 1)));
    assert(one.tally((at.0 - 1, at.1)) == other.tally((at.0 - 1, at.1)));
    assert(one.tally((at.0 - 1, at.1 + 1)) == other.tally((at.0 - 1, at.1 + 1)));
    assert(one.tally((at.0, at.1 - 1)) == other.tally((at.0, at.1 - 1)));
    assert(one.tally((at.0, at.1 + 1)) == other.tally((at.0, at.1 + 1)));
    assert(one.tally((at.0 + 1, at.1 - 1)) == other.tally((at.0 + 1, at.1 - 1)));
    assert(one.tally((at.0 + 1, at.1)) == other.tally((at.0 + 1, at.1)));
    assert(one.tally((at.0 + 1, at.1 + 1)) == other.tally((at.0 + 1, at.1 + 1)));
}

/// A dead cell of the field is alive in the next generation exactly if it
/// has three live neighbours: with two or with four it stays dead.
pub proof fn lemma_birth_needs_three(field: Field, at: Coord)
    requires
        field.dead(at),
    ensures
        field.step().live.contains(at) <==> field.live_neighbours(at) == 3,
{
}

/// A live cell of the field is alive in the next generation exactly if it
/// has two or three live neighbours.
pub proof fn lemma_survival_needs_two_or_three(field: Field, at: Coord)
    requires
        field.alive(at),
    ensures
        field.step().live.contains(at) <==> 2 <= field.live_neighbours(at) <= 3,
{
}

/// A step keeps the extent of the field and leaves every live cell inside it.
pub proof fn lemma_step_is_confined(field: Field)
    ensures
        field.step().rows == field.rows,
        field.step().cols == field.cols,
        field.step().confined(),
{
}

/// A block that lies inside the field is a still life: it is unchanged
/// after any number of steps.
pub proof fn lemma_block_is_still(field: Field, r: int, c: int, n: nat)
    requires
        field.live == block(r, c),
        field.in_bounds((r, c)),
        field.in_bounds((r + 1, c + 1)),
    ensures
        field.after(n) == field,
    decreases n,
{
    if n > 0 {
        lemma_block_is_still(field, r, c, (n - 1) as nat);
        assert forall|at: Coord| field.alive_next(at) <==> block(r, c).contains(at) by {
            lemma_count_of_four(field, (r, c), (r, c + 1), (r + 1, c), (r + 1, c + 1), at);
        }
        assert(field.step().live =~= field.live);
    }
}

/// A flat blinker with a free row above and below turns upright in one step.
pub proof fn lemma_blinker_turns_upright(field: Field, r: int, c: int)
    requires
        field.live == blinker_flat(r, c),
        1 <= r < field.rows - 1,
        1 <= c < field.cols - 1,
    ensures
        field.step().live == blinker_upright(r, c),
{
    assert forall|at: Coord| field.alive_next(at) <==> blinker_upright(r, c).contains(at) by {
        lemma_count_of_three(field, (r, c - 1), (r, c), (r, c + 1), at);
    }
    assert(field.step().live =~= blinker_upright(r, c));
}

/// An upright blinker with a free column on either side turns flat in one
/// step.
pub proof fn lemma_blinker_turns_flat(field: Field, r: int, c: int)
    requires
        field.live == blinker_upright(r, c),
        1 <= r < field.rows - 1,
        1 <= c < field.cols - 1,
    ensures
        field.step().live == blinker_flat(r, c),
{
    assert forall|at: Coord| field.alive_next(at) <==> blinker_flat(r, c).contains(at) by {
        lemma_count_of_three(field, (r - 1, c), (r, c), (r + 1, c), at);
    }
    assert(field.step().live =~= blinker_flat(r, c));
}

/// A blinker with a free row above and below and a free column on either
/// side turns from flat to upright and back: after an odd number of steps
/// it is upright, after an even number it is as it began.
pub proof fn lemma_blinker_oscillates(field: Field, r: int, c: int, n: nat)
    requires
        field.live == blinker_flat(r, c),
        1 <= r < field.rows - 1,
        1 <= c < field.cols - 1,
    ensures
        field.step().live == blinker_upright(r, c),
        field.step().step() == field,
        field.after(n) == if n % 2 == 0 {
            field
        } else {
            field.step()
        },
    decreases n,
{
    lemma_blinker_turns_upright(field, r, c);
    lemma_blinker_turns_flat(field.step(), r, c);
    if n > 0 {
        lemma_blinker_oscillates(field, r, c, (n - 1) as nat);
    }
}

/// The grid holds nothing that the list of live cells does not say: two
/// engines of the same extent that list the same cells in the same order
/// are equal, cell for cell. So a run is fixed by the seed and the extent.
pub proof fn lemma_cells_fix_the_grid(one: GameView, other: GameView)
    requires
        one.wf(),
        other.wf(),
        one.rows() == other.rows(),
        one.cols() == other.cols(),
        one.cells == other.cells,
    ensures
        one == other,
{
    assert forall|r: int| 0 <= r < one.rows() implies one.grid[r] == other.grid[r] by {
        assert forall|c: int| 0 <= c < one.cols() implies one.grid[r][c] == other.grid[r][c] by {
            assert(one.grid[r][c] <= 1 && other.grid[r][c] <= 1);
            assert(one.grid[r][c] == 1 <==> one.cells.contains((r, c)));
            assert(other.grid[r][c] == 1 <==> other.cells.contains((r, c)));
        }
        assert(one.grid[r].len() == one.cols());
        assert(other.grid[r].len() == other.cols());
        assert(one.grid[r] =~= other.grid[r]);
    }
    assert(one.grid =~= other.grid);
}

/// In a field whose live cells are `a`, `b` and `c`, all inside it, the
/// count of a position is the number of these that touch it.
proof fn lemma_count_of_three(field: Field, a: Coord, b: Coord, c: Coord, at: Coord)
    requires
        field.live == set![a, b, c],
        field.in_bounds(a),
        field.in_bounds(b),
        field.in_bounds(c),
        a != b && b != c && a != c,
    ensures
        field.live_neighbours(at) == touches(a, at) + touches(b, at) + touches(c, at),
{
    lemma_tally_of_three(field, a, b, c, (at.0 - 1, at.1 - 1));
    lemma_tally_of_three(field, a, b, c, (at.0 - 1, at.1));
    lemma_tally_of_three(field, a, b, c, (at.0 - 1, at.1 + 1));
    lemma_tally_of_three(field, a, b, c, (at.0, at.1 - 1));
    lemma_tally_of_three(field, a, b, c, (at.0, at.1 + 1));
    lemma_tally_of_three(field, a, b, c, (at.0 + 1, at.1 - 1));
    lemma_tally_of_three(field, a, b, c, (at.0 + 1, at.1));
    lemma_tally_of_three(field, a, b, c, (at.0 + 1, at.1 + 1));
}

/// In a field whose live cells are `a`, `b`, `c` and `d`, all inside it,
/// the count of a position is the number of these that touch it.
proof fn lemma_count_of_four(field: Field, a: Coord, b: Coord, c: Coord, d: Coord, at: Coord)
    requires
        field.live == set![a, b, c, d],
        field.in_bounds(a),
        field.in_bounds(b),
        field.in_bounds(c),
        field.in_bounds(d),
        a != b && a != c && a != d && b != c && b != d && c != d,
    ensures
        field.live_neighbours(at) == touches(a, at) + touches(b, at) + touches(c, at) + touches(
            d,
            at,
        ),
{
    lemma_tally_of_four(field, a, b, c, d, (at.0 - 1, at.1 - 1));
    lemma_tally_of_four(field, a, b, c, d, (at.0 - 1, at.1));
    lemma_tally_of_four(field, a, b, c, d, (at.0 - 1, at.1 + 1));
    lemma_tally_of_four(field, a, b, c, d, (at.0, at.1 - 1));
    lemma_tally_of_four(field, a, b, c, d, (at.0, at.1 + 1));
    lemma_tally_of_four(field, a, b, c, d, (at.0 + 1, at.1 - 1));
    lemma_tally_of_four(field, a, b, c, d, (at.0 + 1, at.1));
    lemma_tally_of_four(field, a, b, c, d, (at.0 + 1, at.1 + 1));
}

proof fn lemma_tally_of_four(field: Field, a: Coord, b: Coord, c: Coord, d: Coord, near: Coord)
    requires
        field.live == set![a, b, c, d],
        field.in_bounds(a),
        field.in_bounds(b),
        field.in_bounds(c),
        field.in_bounds(d),
    ensures
        field.tally(near) == if near == a || near == b || near == c || near == d {
            1int
        } else {
            0int
        },
{
}

proof fn lemma_tally_of_three(field: Field, a: Coord, b: Coord, c: Coord, near: Coord)
    requires
        field.live == set![a, b, c],
        field.in_bounds(a),
        field.in_bounds(b),
        field.in_bounds(c),
    ensures
        field.tally(near) == if near == a || near == b || near == c {
            1int
        } else {
            0int
        },
{
}

/// One if the two positions touch, zero otherwise.
spec fn touches(a: Coord, b: Coord) -> int {
    if adjacent(a, b) {
        1
    } else {
        0
    }
}

/// A single live cell dies in the first step, and the field stays empty in
/// every step after it.
pub proof fn lemma_lone_cell_dies(field: Field, at: Coord, n: nat)
    requires
        field.live == set![at],
        n >= 1,
    ensures
        field.after(n).live == Set::<Coord>::empty(),
    decreases n,
{
    if n == 1 {
        assert(field.after(0) == field);
        assert(field.step().live =~= Set::<Coord>::empty());
    } else {
        lemma_lone_cell_dies(field, at, (n - 1) as nat);
        assert(field.after((n - 1) as nat).step().live =~= Set::<Coord>::empty());
    }
}

} // verus!
