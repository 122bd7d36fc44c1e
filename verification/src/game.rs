//! The engine: a grid of cells and the list of the cells that are alive,
//! kept in step with each other.

use crate::cell::{coord_of, coords, lemma_coords_first_occurrences, unique_cells};
use crate::field::{Coord, Field};
use crate::frame::{frame_head, frame_text, lemma_frame_text_next, row_text, ALIVE, DEAD};
use crate::order::{
    births, candidates, dead_fringe, dead_neighbours, dead_spot, deaths, is_born, is_dying,
    is_surviving, lemma_contains_last, lemma_dead_fringe_contains, lemma_filter_next,
    lemma_first_occurrences, lemma_next_cells, next_cells, survivors,
};
use vstd::prelude::*;

verus! {

/// What a [`Game`] holds, as plain mathematics: the grid row by row, and the
/// positions of the live cells in the order in which the engine lists them.
pub struct GameView {
    pub grid: Seq<Seq<u16>>,
    pub cells: Seq<Coord>,
}

impl GameView {
    /// The number of rows of the grid.
    pub open spec fn rows(self) -> int {
        self.grid.len() as int
    }

    /// The number of columns of the grid: the length of its first row.
    pub open spec fn cols(self) -> int {
        if self.grid.len() > 0 {
            self.grid[0].len() as int
        } else {
            0
        }
    }

    /// The generation that the list of live cells describes.
    pub open spec fn field(self) -> Field {
        Field { rows: self.rows(), cols: self.cols(), live: self.cells.to_set() }
    }

    /// The grid is a rectangle with at least one row and one column, and
    /// both extents fit a `u16`.
    pub open spec fn shaped(self) -> bool {
        &&& 1 <= self.rows() <= u16::MAX
        &&& 1 <= self.cols() <= u16::MAX
        &&& forall|r: int| 0 <= r < self.rows() ==> (#[trigger] self.grid[r]).len() == self.cols()
    }

    /// Every listed live cell lies inside the grid.
    pub open spec fn cells_in_bounds(self) -> bool {
        forall|i: int| 0 <= i < self.cells.len() ==> self.field().in_bounds(#[trigger] self.cells[i])
    }

    /// Every grid cell holds 0 (dead) or 1 (alive).
    pub open spec fn binary(self) -> bool {
        forall|r: int, c: int|
            0 <= r < self.rows() && 0 <= c < self.cols() ==> #[trigger] self.grid[r][c] <= 1
    }

    /// Grid and list agree: a grid cell is alive exactly if its position is
    /// listed.
    pub open spec fn consistent(self) -> bool {
        forall|r: int, c: int|
            #![trigger self.grid[r][c]]
            #![trigger self.cells.contains((r, c))]
            0 <= r < self.rows() && 0 <= c < self.cols() ==> (self.grid[r][c] == 1
                <==> self.cells.contains((r, c)))
    }

    /// The grid has the extent of that of `before`, and holds `value` in the
    /// cells at the marked positions and what `before` holds in the others.
    pub open spec fn marks(self, before: GameView, marked: Seq<Coord>, value: u16) -> bool {
        &&& self.shaped()
        &&& self.rows() == before.rows()
        &&& self.cols() == before.cols()
        &&& forall|r: int, c: int|
            0 <= r < before.rows() && 0 <= c < before.cols() ==> #[trigger] self.grid[r][c]
                == before.mark_at(marked, value, r, c)
    }

    /// What the cell at `(r, c)` holds once the marked positions are set to
    /// `value`.
    pub open spec fn mark_at(self, marked: Seq<Coord>, value: u16, r: int, c: int) -> u16 {
        if marked.contains((r, c)) {
            value
        } else {
            self.grid[r][c]
        }
    }

    /// The invariant of the engine.
    pub open spec fn wf(self) -> bool {
        &&& self.shaped()
        &&& self.cells_in_bounds()
        &&& self.binary()
        &&& self.consistent()
    }
}

/// Why a game could not be set up.
#[derive(Debug, Clone, Copy, PartialEq, Eq)]
pub enum ConfigError {
    /// The grid would have no rows or no columns.
    EmptyGrid,
    /// A cell of the seed lies outside the grid.
    SeedOutOfBounds,
}

/// Every cell of the seed lies inside a grid of the given extent.
pub open spec fn seed_fits(seed: Seq<[u16; 2]>, rows: u16, cols: u16) -> bool {
    forall|i: int| 0 <= i < seed.len() ==> (#[trigger] seed[i])[0] < rows && seed[i][1] < cols
}

/// What one generation changed: the cells that died and the cells that
/// were born, each in the order in which the engine found them.
#[derive(Debug)]
pub struct Changes {
    pub removed: Vec<[u16; 2]>,
    pub inserted: Vec<[u16; 2]>,
}

/// Conway's Game of Life on a grid of fixed size with hard edges.
#[derive(Debug)]
pub struct Game {
    grid: Vec<Vec<u16>>,
    alive_cells: Vec<[u16; 2]>,
}

impl View for Game {
    type V = GameView;

    closed spec fn view(&self) -> GameView {
        GameView {
            grid: Seq::new(self.grid@.len(), |r: int| self.grid@[r]@),
            cells: coords(self.alive_cells@),
        }
    }
}

impl Game {
    /// The invariant of the engine holds of this value.
    pub open spec fn wf(&self) -> bool {
        self@.wf()
    }

    /// Sets up a game on a grid of `rows` by `cols` dead cells and brings
    /// the cells of the seed alive, listed in the order of the seed. A grid
    /// without rows or columns is refused, and so is a seed with a cell
    /// outside the grid.
    pub fn new(seed: Vec<[u16; 2]>, rows: u16, cols: u16) -> (made: Result<Game, ConfigError>)
        ensures
            match made {
                Ok(game) => {
                    &&& rows > 0 && cols > 0 && seed_fits(seed@, rows, cols)
                    &&& game.wf()
                    &&& game@.rows() == rows
                    &&& game@.cols() == cols
                    &&& game@.cells == coords(seed@)
                },
                Err(ConfigError::EmptyGrid) => rows == 0 || cols == 0,
                Err(ConfigError::SeedOutOfBounds) => rows > 0 && cols > 0 && !seed_fits(
                    seed@,
                    rows,
                    cols,
                ),
            },
    {
        if rows == 0 || cols == 0 {
            return Err(ConfigError::EmptyGrid);
        }
        let mut n: usize = 0;
        while n < seed.len()
            invariant
                rows > 0 && cols > 0,
                n <= seed@.len(),
                forall|i: int| 0 <= i < n ==> (#[trigger] seed@[i])[0] < rows && seed@[i][1] < cols,
            decreases seed@.len() - n,
        {
            if seed[n][0] >= rows || seed[n][1] >= cols {
                assert(!(seed@[n as int][0] < rows && seed@[n as int][1] < cols));
                return Err(ConfigError::SeedOutOfBounds);
            }
            n += 1;
        }

        let mut grid: Vec<Vec<u16>> = Vec::with_capacity(rows as usize);
        let mut i: u16 = 0;
        while i < rows
            invariant
                i <= rows,
                grid@.len() == i,
                forall|r: int| 0 <= r < i ==> (#[trigger] grid@[r])@.len() == cols,
                forall|r: int, c: int| 0 <= r < i && 0 <= c < cols ==> (#[trigger] grid@[r]@[c]) == 0,
            decreases rows - i,
        {
            let row: Vec<u16> = vec![0; cols as usize];
            grid.push(row);
            i += 1;
        }

        let mut game = Game { grid, alive_cells: seed };
        let ghost blank = game@;
        proof {
            assert(blank.grid[0].len() == cols);
            assert forall|r: int| 0 <= r < blank.rows() implies (#[trigger] blank.grid[r]).len()
                == blank.cols() by {
                assert(game.grid@[r]@.len() == cols);
            }
            assert forall|r: int, c: int|
                0 <= r < blank.rows() && 0 <= c < blank.cols() implies #[trigger] blank.grid[r][c]
                == 0 by {
                assert(game.grid@[r]@[c] == 0);
            }
            assert forall|m: int| 0 <= m < blank.cells.len() implies blank.field().in_bounds(
                #[trigger] blank.cells[m],
            ) by {
                assert(seed@[m][0] < rows);
            }
        }
        game.populate();
        proof {
            let ready = game@;
            assert forall|r: int, c: int|
                0 <= r < ready.rows() && 0 <= c < ready.cols() implies (#[trigger] ready.grid[r][c]
                <= 1 && (ready.grid[r][c] == 1 <==> ready.cells.contains((r, c)))) by {
                assert(blank.grid[r][c] == 0);
            }
        }
        Ok(game)
    }

    /// The text of the current generation: for each cell its glyph, row by
    /// row, with a line break between each two rows.
    pub fn render(&self) -> (text: String)
        requires
            self@.shaped(),
        ensures
            text@ == frame_text(self@.grid),
    {
        let (rows, cols) = self.grid_size();
        let ghost grid = self@.grid;
        let mut text = String::new();

        let mut i: u16 = 0;
        while i < rows
            invariant
                self@.shaped(),
                grid == self@.grid,
                rows == self@.rows(),
                cols == self@.cols(),
                i <= rows,
                text@ == frame_head(grid, i as int),
            decreases rows - i,
        {
            let ghost head = text@;
            let mut j: u16 = 0;
            while j < cols
                invariant
                    self@.shaped(),
                    grid == self@.grid,
                    rows == self@.rows(),
                    cols == self@.cols(),
                    i < rows,
                    j <= cols,
                    text@ == head + row_text(grid[i as int]).take(j as int),
                decreases cols - j,
            {
                assert(grid[i as int].len() == cols);
                if self.grid[i as usize][j as usize] == 0 {
                    text.push(DEAD);
                } else {
                    text.push(ALIVE);
                }
                j += 1;
                assert(text@ =~= head + row_text(grid[i as int]).take(j as int));
            }
            proof {
                assert(grid[i as int].len() == cols);
                assert(row_text(grid[i as int]).take(j as int) =~= row_text(grid[i as int]));
                lemma_frame_text_next(grid, i as int);
            }
            if i < rows - 1 {
                text.push('\n');
            }
            i += 1;
            assert(text@ =~= frame_head(grid, i as int));
        }
        assert(grid.take(i as int) =~= grid);
        text
    }

    /// The extent of the grid: rows, then columns.
    pub fn grid_size(&self) -> (size: (u16, u16))
        requires
            self@.shaped(),
        ensures
            size.0 == self@.rows(),
            size.1 == self@.cols(),
    {
        (self.grid.len() as u16, self.grid[0].len() as u16)
    }

    /// The grid as it stands, row by row: 1 for a live cell, 0 for a dead one.
    pub fn render_view(&self) -> (grid: &Vec<Vec<u16>>)
        ensures
            grid@.len() == self@.rows(),
            forall|r: int| 0 <= r < self@.rows() ==> (#[trigger] grid@[r])@ == self@.grid[r],
    {
        &self.grid
    }

    /// The live cells, in the order in which the engine lists them.
    pub fn alive_cells(&self) -> (cells: &Vec<[u16; 2]>)
        ensures
            coords(cells@) == self@.cells,
    {
        &self.alive_cells
    }

    /// The state of one grid cell: 1 if it is alive, 0 if it is dead.
    pub fn cell_value(&self, row: u16, col: u16) -> (value: u16)
        requires
            self@.shaped(),
            self@.field().in_bounds((row as int, col as int)),
        ensures
            value == self@.grid[row as int][col as int],
            self.wf() ==> value == self@.field().tally((row as int, col as int)),
    {
        proof {
            assert(self@.grid[row as int].len() == self@.cols());
            if self.wf() {
                assert(self@.grid[row as int][col as int] <= 1);
            }
        }
        self.grid[row as usize][col as usize]
    }

    /// Advances the game by one generation. Every cell is judged against
    /// the generation before the call: a live cell with two or three live
    /// neighbours stays, any other live cell dies, and a dead cell with
    /// exactly three live neighbours is born. Only the live cells and the
    /// dead cells next to them are looked at. The survivors keep their
    /// order in the list of live cells, and the births follow them.
    pub fn update_state(&mut self) -> (changes: Changes)
        requires
            old(self).wf(),
        ensures
            final(self).wf(),
            final(self)@.consistent(),
            final(self)@.rows() == old(self)@.rows(),
            final(self)@.cols() == old(self)@.cols(),
            final(self)@.field() == old(self)@.field().step(),
            final(self)@.cells == next_cells(old(self)@.field(), old(self)@.cells),
            coords(changes.removed@) == deaths(old(self)@.field(), old(self)@.cells),
            coords(changes.inserted@) == births(old(self)@.field(), old(self)@.cells),
            old(self)@.cells.no_duplicates() ==> final(self)@.cells.no_duplicates(),
    {
        let ghost before = self@;
        let ghost field = before.field();
        let ghost cells = before.cells;

        let mut dead_cells: Vec<[u16; 2]> = Vec::new();
        let mut i: usize = 0;
        while i < self.alive_cells.len()
            invariant
                self@ == before,
                before.wf(),
                field == before.field(),
                cells == before.cells,
                i <= self.alive_cells@.len(),
                coords(dead_cells@) == dead_fringe(field, cells.take(i as int)),
            decreases self.alive_cells@.len() - i,
        {
            assert(field.in_bounds(cells[i as int]));
            let mut dead_nbs = self.get_dead_neighbours(&self.alive_cells[i]);
            let ghost found = dead_cells@;
            let ghost more = dead_nbs@;
            dead_cells.append(&mut dead_nbs);
            i += 1;
            proof {
                assert(cells.take(i as int).drop_last() =~= cells.take(i - 1));
                assert(coords(found + more) =~= coords(found) + coords(more));
            }
        }
        proof {
            assert(cells.take(i as int) =~= cells);
            lemma_coords_first_occurrences(dead_cells@);
            lemma_first_occurrences(dead_fringe(field, cells));
        }
        let dead_cells = unique_cells(dead_cells);

        let mut to_insert: Vec<[u16; 2]> = Vec::new();
        let mut j: usize = 0;
        while j < dead_cells.len()
            invariant
                self@ == before,
                before.wf(),
                field == before.field(),
                cells == before.cells,
                j <= dead_cells@.len(),
                coords(dead_cells@) == candidates(field, cells),
                forall|at: Coord| #[trigger]
                    candidates(field, cells).contains(at) ==> dead_fringe(field, cells).contains(at),
                coords(to_insert@) == candidates(field, cells).take(j as int).filter(is_born(field)),
            decreases dead_cells@.len() - j,
        {
            let dead_cell = dead_cells[j];
            proof {
                let at = coord_of(dead_cell);
                assert(candidates(field, cells)[j as int] == at);
                assert(candidates(field, cells).contains(at));
                lemma_dead_fringe_contains(field, cells, at);
                lemma_filter_next(candidates(field, cells), is_born(field), j as int);
            }
            let living_count = self.get_living_neighbours_count(&dead_cell);
            let ghost found = to_insert@;
            if living_count == 3 {
                to_insert.push(dead_cell);
                assert(coords(to_insert@) =~= coords(found).push(coord_of(dead_cell)));
            }
            j += 1;
        }
        assert(candidates(field, cells).take(j as int) =~= candidates(field, cells));

        let mut to_remove: Vec<[u16; 2]> = Vec::new();
        let mut staying: Vec<[u16; 2]> = Vec::new();
        let mut k: usize = 0;
        while k < self.alive_cells.len()
            invariant
                self@ == before,
                before.wf(),
                field == before.field(),
                cells == before.cells,
                k <= self.alive_cells@.len(),
                coords(to_remove@) == cells.take(k as int).filter(is_dying(field)),
                coords(staying@) == cells.take(k as int).filter(is_surviving(field)),
            decreases self.alive_cells@.len() - k,
        {
            let alive_cell = self.alive_cells[k];
            proof {
                assert(cells[k as int] == coord_of(alive_cell));
                assert(field.in_bounds(cells[k as int]));
                assert(cells.contains(cells[k as int]));
                lemma_filter_next(cells, is_dying(field), k as int);
                lemma_filter_next(cells, is_surviving(field), k as int);
            }
            let living_count = self.get_living_neighbours_count(&alive_cell);
            let ghost gone = to_remove@;
            let ghost kept = staying@;
            if living_count < 2 || living_count > 3 {
                to_remove.push(alive_cell);
                assert(coords(to_remove@) =~= coords(gone).push(coord_of(alive_cell)));
            } else {
                staying.push(alive_cell);
                assert(coords(staying@) =~= coords(kept).push(coord_of(alive_cell)));
            }
            k += 1;
        }
        assert(cells.take(k as int) =~= cells);

        proof {
            lemma_next_cells(field, cells);
            assert forall|n: int| 0 <= n < to_remove@.len() implies field.in_bounds(
                #[trigger] coords(to_remove@)[n],
            ) by {
                assert(deaths(field, cells).contains(coords(to_remove@)[n]));
            }
        }
        self.clear(&to_remove);
        let ghost cleared = self@;

        let mut n: usize = 0;
        while n < to_insert.len()
            invariant
                n <= to_insert@.len(),
                self@.grid == cleared.grid,
                coords(staying@) == survivors(field, cells) + births(field, cells).take(n as int),
                coords(to_insert@) == births(field, cells),
            decreases to_insert@.len() - n,
        {
            let ghost kept = staying@;
            staying.push(to_insert[n]);
            n += 1;
            proof {
                let fresh = births(field, cells);
                assert(coords(staying@) =~= coords(kept).push(fresh[n - 1]));
                assert(fresh.take(n as int) =~= fresh.take(n - 1).push(fresh[n - 1]));
                assert(coords(staying@) =~= survivors(field, cells) + fresh.take(n as int));
            }
        }
        assert(births(field, cells).take(n as int) =~= births(field, cells));
        self.alive_cells = staying;
        let ghost listed = self@;
        proof {
            assert(listed.grid =~= cleared.grid);
            assert(listed.cells == next_cells(field, cells));
            assert forall|m: int| 0 <= m < listed.cells.len() implies listed.field().in_bounds(
                #[trigger] listed.cells[m],
            ) by {
                assert(listed.cells.to_set().contains(listed.cells[m]));
            }
        }
        self.populate();
        proof {
            let after = self@;
            let next = next_cells(field, cells);
            assert forall|r: int, c: int|
                0 <= r < after.rows() && 0 <= c < after.cols() implies (#[trigger] after.grid[r][c]
                <= 1 && (after.grid[r][c] == 1 <==> next.contains((r, c)))) by {
                let at = (r, c);
                assert(listed.grid[r][c] == cleared.grid[r][c]);
                assert(before.grid[r][c] <= 1);
                assert(before.grid[r][c] == 1 <==> cells.contains(at));
                assert(next.to_set().contains(at) <==> field.alive_next(at));
                assert(deaths(field, cells).contains(at) <==> field.dies(at));
            }
            assert(after.field().live =~= field.step().live);
        }
        Changes { removed: to_remove, inserted: to_insert }
    }

    /// Counts the live cells among the up to eight neighbours of `root`.
    /// Neighbours beyond the edges of the grid do not exist.
    pub fn get_living_neighbours_count(&self, root: &[u16; 2]) -> (count: u16)
        requires
            self.wf(),
            self@.field().in_bounds(coord_of(*root)),
        ensures
            count == self@.field().live_neighbours(coord_of(*root)),
            count <= 8,
    {
        let mut ret: u16 = 0;

        let (rows, cols) = self.grid_size();

        let row = root[0];
        let col = root[1];

        if row > 0 {
            if col > 0 && self.cell_value(row - 1, col - 1) == 1 {
                ret += 1;
            }
            if self.cell_value(row - 1, col) == 1 {
                ret += 1;
            }
            if col + 1 < cols && self.cell_value(row - 1, col + 1) == 1 {
                ret += 1;
            }
        }
        if col > 0 && self.cell_value(row, col - 1) == 1 {
            ret += 1;
        }
        if col + 1 < cols && self.cell_value(row, col + 1) == 1 {
            ret += 1;
        }
        if row + 1 < rows {
            if col > 0 && self.cell_value(row + 1, col - 1) == 1 {
                ret += 1;
            }
            if self.cell_value(row + 1, col) == 1 {
                ret += 1;
            }
            if col + 1 < cols && self.cell_value(row + 1, col + 1) == 1 {
                ret += 1;
            }
        }
        ret
    }

    /// Lists the dead cells among the up to eight neighbours of `root`, row
    /// by row from the upper left to the lower right.
    pub fn get_dead_neighbours(&self, root: &[u16; 2]) -> (dead: Vec<[u16; 2]>)
        requires
            self.wf(),
            self@.field().in_bounds(coord_of(*root)),
        ensures
            coords(dead@) == dead_neighbours(self@.field(), coord_of(*root)),
    {
        let mut ret: Vec<[u16; 2]> = Vec::new();

        let row = root[0] as i32;
        let col = root[1] as i32;
        assert(coords(ret@) + dead_spot(self@.field(), (row - 1, col - 1)) =~= dead_spot(
            self@.field(),
            (row - 1, col - 1),
        ));

        self.push_if_dead(row - 1, col - 1, &mut ret);
        self.push_if_dead(row - 1, col, &mut ret);
        self.push_if_dead(row - 1, col + 1, &mut ret);
        self.push_if_dead(row, col - 1, &mut ret);
        self.push_if_dead(row, col + 1, &mut ret);
        self.push_if_dead(row + 1, col - 1, &mut ret);
        self.push_if_dead(row + 1, col, &mut ret);
        self.push_if_dead(row + 1, col + 1, &mut ret);
        ret
    }

    /// Marks every listed live cell as alive in the grid. The other grid
    /// cells keep their state.
    pub fn populate(&mut self)
        requires
            old(self)@.shaped(),
            old(self)@.cells_in_bounds(),
        ensures
            final(self)@.cells == old(self)@.cells,
            final(self)@.marks(old(self)@, old(self)@.cells, 1),
    {
        let ghost before = self@;
        let mut i: usize = 0;
        while i < self.alive_cells.len()
            invariant
                i <= self.alive_cells@.len(),
                self.alive_cells@.len() == before.cells.len(),
                before.shaped(),
                before.cells_in_bounds(),
                self@.cells == before.cells,
                self@.marks(before, before.cells.take(i as int), 1),
            decreases self.alive_cells@.len() - i,
        {
            let cell = self.alive_cells[i];
            assert(before.field().in_bounds(before.cells[i as int]));
            self.set_cell(cell, 1, Ghost(before), Ghost(before.cells.take(i as int)));
            assert(self.alive_cells@.len() == before.cells.len());
            i += 1;
            assert(before.cells.take(i as int) =~= before.cells.take(i - 1).push(coord_of(cell)));
        }
        assert(before.cells.take(i as int) =~= before.cells);
    }

    /// Marks every cell of `gone` as dead in the grid. The other grid cells
    /// keep their state, and so does the list of live cells.
    fn clear(&mut self, gone: &Vec<[u16; 2]>)
        requires
            old(self)@.shaped(),
            forall|i: int|
                0 <= i < gone@.len() ==> old(self)@.field().in_bounds(#[trigger] coords(gone@)[i]),
        ensures
            final(self)@.cells == old(self)@.cells,
            final(self)@.marks(old(self)@, coords(gone@), 0),
    {
        let ghost before = self@;
        let ghost places = coords(gone@);
        let mut i: usize = 0;
        while i < gone.len()
            invariant
                i <= gone@.len(),
                places == coords(gone@),
                before.shaped(),
                forall|i: int| 0 <= i < places.len() ==> before.field().in_bounds(#[trigger] places[i]),
                self@.cells == before.cells,
                self@.marks(before, places.take(i as int), 0),
            decreases gone@.len() - i,
        {
            let cell = gone[i];
            assert(before.field().in_bounds(places[i as int]));
            self.set_cell(cell, 0, Ghost(before), Ghost(places.take(i as int)));
            i += 1;
            assert(places.take(i as int) =~= places.take(i - 1).push(coord_of(cell)));
        }
        assert(places.take(i as int) =~= places);
    }

    /// Sets one grid cell to `value`. Where the grid held `before` with the
    /// positions of `marked` set to `value`, it now holds that with the
    /// position of `cell` set as well.
    fn set_cell(
        &mut self,
        cell: [u16; 2],
        value: u16,
        Ghost(before): Ghost<GameView>,
        Ghost(marked): Ghost<Seq<Coord>>,
    )
        requires
            old(self)@.marks(before, marked, value),
            before.field().in_bounds(coord_of(cell)),
        ensures
            final(self)@.cells == old(self)@.cells,
            final(self)@.marks(before, marked.push(coord_of(cell)), value),
    {
        let ghost earlier = self@;
        assert(earlier.grid[cell[0] as int].len() == earlier.cols());
        self.grid[cell[0] as usize][cell[1] as usize] = value;
        proof {
            let now = self@;
            let wider = marked.push(coord_of(cell));
            assert forall|r: int| 0 <= r < now.rows() implies (#[trigger] now.grid[r]).len()
                == now.cols() by {
                assert(earlier.grid[r].len() == earlier.cols());
            }
            assert forall|r: int, c: int|
                0 <= r < before.rows() && 0 <= c < before.cols() implies #[trigger] now.grid[r][c]
                == before.mark_at(wider, value, r, c) by {
                lemma_contains_last(wider, (r, c));
                assert(wider.drop_last() =~= marked);
                assert(earlier.grid[r][c] == before.mark_at(marked, value, r, c));
            }
        }
    }

    /// Appends the cell at `(row, col)` to `found` if it lies inside the
    /// grid and is dead.
    fn push_if_dead(&self, row: i32, col: i32, found: &mut Vec<[u16; 2]>)
        requires
            self.wf(),
        ensures
            coords(final(found)@) == coords(old(found)@) + dead_spot(
                self@.field(),
                (row as int, col as int),
            ),
    {
        let (rows, cols) = self.grid_size();
        if 0 <= row && row < rows as i32 && 0 <= col && col < cols as i32 && self.cell_value(
            row as u16,
            col as u16,
        ) == 0 {
            found.push([row as u16, col as u16]);
        }
        assert(coords(found@) =~= coords(old(found)@) + dead_spot(
            self@.field(),
            (row as int, col as int),
        ));
    }
}

} // verus!
