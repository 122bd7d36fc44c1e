//! The text of a frame: one glyph for each cell, row by row, with a line
//! break between two rows and none after the last.

use vstd::prelude::*;

verus! {

/// The glyph of a live cell: a full block.
pub const ALIVE: char = '\u{2588}';

/// The glyph of a dead cell: a light shade.
pub const DEAD: char = '\u{2591}';

/// The glyph that stands for a grid cell: a cell that holds 0 is dead, any
/// other is alive.
pub open spec fn glyph(value: u16) -> char {
    if value == 0 {
        DEAD
    } else {
        ALIVE
    }
}

/// The text of one row: the glyph of each of its cells.
pub open spec fn row_text(row: Seq<u16>) -> Seq<char> {
    Seq::new(row.len(), |c: int| glyph(row[c]))
}

/// The text of a grid: the texts of its rows, with a line break between
/// each two of them.
pub open spec fn frame_text(grid: Seq<Seq<u16>>) -> Seq<char>
    decreases grid.len(),
{
    if grid.len() == 0 {
        Seq::empty()
    } else if grid.len() == 1 {
        row_text(grid[0])
    } else {
        frame_text(grid.drop_last()) + seq!['\n'] + row_text(grid.last())
    }
}

/// The text of the first `n` rows of a grid, and a line break after them
/// if they are followed by further rows.
pub open spec fn frame_head(grid: Seq<Seq<u16>>, n: int) -> Seq<char> {
    if 0 < n < grid.len() {
        frame_text(grid.take(n)) + seq!['\n']
    } else {
        frame_text(grid.take(n))
    }
}

/// The text of one more row is the head before it and the text of that row.
pub proof fn lemma_frame_text_next(grid: Seq<Seq<u16>>, n: int)
    requires
        0 <= n < grid.len(),
    ensures
        frame_text(grid.take(n + 1)) == frame_head(grid, n) + row_text(grid[n]),
{
    let upto = grid.take(n + 1);
    assert(upto.drop_last() =~= grid.take(n));
    assert(upto.last() == grid[n]);
    if n == 0 {
        assert(frame_text(grid.take(0)) =~= Seq::<char>::empty());
        assert(frame_text(upto) =~= frame_head(grid, n) + row_text(grid[n]));
    }
}

/// `String::push` appends the given character to the end of the string.
pub assume_specification[ String::push ](text: &mut String, ch: char)
    ensures
        final(text)@ == old(text)@.push(ch),
;

} // verus!
