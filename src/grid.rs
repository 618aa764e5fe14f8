//! Fixed-size boolean grids shared by all boards of a match.

use vstd::prelude::*;

verus! {

/// Side length of the square board.
pub const SIDE: usize = 10;

/// Number of cells on the board.
pub const CELLS: usize = 100;

/// Position of cell `(x, y)` in the row-major cell sequence.
pub open spec fn cell_index(x: int, y: int) -> int {
    x * 10 + y
}

/// Whether `(x, y)` lies on the board.
pub open spec fn in_board(x: int, y: int) -> bool {
    0 <= x < 10 && 0 <= y < 10
}

/// Whether the cell `(x, y)` is on the board and marked in `g`.
pub open spec fn marked(g: Seq<bool>, x: int, y: int) -> bool {
    in_board(x, y) && g[cell_index(x, y)]
}

/// Number of marked cells among the first `n` cells of `g`.
pub open spec fn count_prefix(g: Seq<bool>, n: int) -> nat
    decreases n,
{
    if n <= 0 {
        0
    } else {
        count_prefix(g, n - 1) + if g[n - 1] { 1nat } else { 0nat }
    }
}

/// Number of marked cells of a board.
pub open spec fn count_marked(g: Seq<bool>) -> nat {
    count_prefix(g, 100)
}

/// A 10 x 10 board of flags, addressed by column `x` and row `y`.
#[derive(Clone, Copy)]
pub struct Grid {
    pub cells: [bool; 100],
}

impl View for Grid {
    type V = Seq<bool>;

    open spec fn view(&self) -> Seq<bool> {
        self.cells@
    }
}

impl Grid {
    /// A grid with no cell marked.
    pub fn new() -> (r: Grid)
        ensures
            r@.len() == 100,
            forall|i: int| 0 <= i < 100 ==> !#[trigger] r@[i],
    {
        Grid { cells: [false; 100] }
    }

    /// Whether cell `(x, y)` is marked.
    pub fn get(&self, x: u8, y: u8) -> (r: bool)
        requires
            x < 10,
            y < 10,
        ensures
            r == self@[cell_index(x as int, y as int)],
    {
        self.cells[x as usize * 10 + y as usize]
    }

    /// Marks or unmarks cell `(x, y)`.
    pub fn set(&mut self, x: u8, y: u8, value: bool)
        requires
            x < 10,
            y < 10,
        ensures
            final(self)@ == old(self)@.update(cell_index(x as int, y as int), value),
    {
        self.cells[x as usize * 10 + y as usize] = value;
    }

    /// Unmarks every cell.
    pub fn clear(&mut self)
        ensures
            final(self)@.len() == 100,
            forall|i: int| 0 <= i < 100 ==> !#[trigger] final(self)@[i],
    {
        self.cells = [false; 100];
    }
}

} // verus!
