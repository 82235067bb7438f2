//! The three-valued cell tag stored in the grid.

use vstd::prelude::*;

verus! {

/// One grid unit. `TempWall` is a construction-only marker: it records the
/// in-progress trail of a carve attempt and never survives into a finished
/// maze.
#[derive(Clone, Copy, Debug, PartialEq, Eq, Structural)]
pub enum Cell {
    Space,
    Wall,
    TempWall,
}

/// The single-byte encoding used on the read boundary: `Space` is 0,
/// `Wall` is 1, and the internal `TempWall` marker is 2.
pub open spec fn cell_byte(c: Cell) -> u8 {
    match c {
        Cell::Space => 0,
        Cell::Wall => 1,
        Cell::TempWall => 2,
    }
}

/// Executable form of [`cell_byte`].
pub fn cell_to_byte(c: Cell) -> (b: u8)
    ensures
        b == cell_byte(c),
{
    match c {
        Cell::Space => 0,
        Cell::Wall => 1,
        Cell::TempWall => 2,
    }
}

} // verus!
