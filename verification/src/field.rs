//! The mathematical model of the game: a bounded field of cells, the
//! neighbour count with hard edges, and the rule that takes one generation
//! to the next.

use vstd::prelude::*;

verus! {

/// A position on the field: `(row, column)`.
pub type Coord = (int, int);

/// A generation of the game: the extent of the field and the set of cells
/// that are alive. Only cells inside the field take part in the game; what
/// the set holds outside it is never counted.
pub struct Field {
    pub rows: int,
    pub cols: int,
    pub live: Set<Coord>,
}

impl Field {
    /// The position lies inside `[0, rows) x [0, cols)`.
    pub open spec fn in_bounds(self, at: Coord) -> bool {
        0 <= at.0 < self.rows && 0 <= at.1 < self.cols
    }

    /// The position lies inside the field and its cell is alive.
    pub open spec fn alive(self, at: Coord) -> bool {
        self.in_bounds(at) && self.live.contains(at)
    }

    /// The position lies inside the field and its cell is dead.
    pub open spec fn dead(self, at: Coord) -> bool {
        self.in_bounds(at) && !self.live.contains(at)
    }

    /// One for a live cell inside the field, zero otherwise.
    pub open spec fn tally(self, at: Coord) -> int {
        if self.alive(at) {
            1
        } else {
            0
        }
    }

    /// The number of live cells among the eight positions around `at`.
    /// Positions outside the field do not exist: the edges are hard.
    pub open spec fn live_neighbours(self, at: Coord) -> int {
        self.tally((at.0 - 1, at.1 - 1)) + self.tally((at.0 - 1, at.1)) + self.tally(
            (at.0 - 1, at.1 + 1),
        ) + self.tally((at.0, at.1 - 1)) + self.tally((at.0, at.1 + 1)) + self.tally(
            (at.0 + 1, at.1 - 1),
        ) + self.tally((at.0 + 1, at.1)) + self.tally((at.0 + 1, at.1 + 1))
    }

    /// A live cell stays alive with two or three live neighbours.
    pub open spec fn survives(self, at: Coord) -> bool {
        self.alive(at) && 2 <= self.live_neighbours(at) <= 3
    }

    /// A live cell dies with fewer than two or more than three live neighbours.
    pub open spec fn dies(self, at: Coord) -> bool {
        self.alive(at) && !(2 <= self.live_neighbours(at) <= 3)
    }

    /// A dead cell comes alive with exactly three live neighbours.
    pub open spec fn born(self, at: Coord) -> bool {
        self.dead(at) && self.live_neighbours(at) == 3
    }

    /// The cell at `at` is alive in the next generation.
    pub open spec fn alive_next(self, at: Coord) -> bool {
        self.survives(at) || self.born(at)
    }

    /// Every live cell lies inside the field.
    pub open spec fn confined(self) -> bool {
        forall|at: Coord| self.live.contains(at) ==> self.in_bounds(at)
    }

    /// The next generation: every cell is judged against this one.
    pub open spec fn step(self) -> Field {
        Field { rows: self.rows, cols: self.cols, live: Set::new(|at: Coord| self.alive_next(at)) }
    }

    /// The generation reached after `n` steps.
    pub open spec fn after(self, n: nat) -> Field
        decreases n,
    {
        if n == 0 {
            self
        } else {
            self.after((n - 1) as nat).step()
        }
    }
}

/// Two different positions touch: they differ by at most one row and at
/// most one column.
pub open spec fn adjacent(a: Coord, b: Coord) -> bool {
    a != b && -1 <= a.0 - b.0 <= 1 && -1 <= a.1 - b.1 <= 1
}

} // verus!
