//! Placed ships and the cells they cover.

use vstd::prelude::*;
use crate::grid::{cell_index, in_board};

verus! {

/// A placed ship: its length, the cell it starts at, the axis it runs along,
/// and how many of its cells have been hit.
#[derive(Clone, Copy, PartialEq, Eq, Structural, Debug)]
pub struct Ship {
    pub size: u8,
    pub x_start_location: u8,
    pub y_start_location: u8,
    pub vertical: bool,
    pub sunken_fields: u8,
}

impl Ship {
    /// Column of the `k`-th cell of the ship.
    pub open spec fn cell_x(self, k: int) -> int {
        if self.vertical {
            self.x_start_location as int
        } else {
            self.x_start_location + k
        }
    }

    /// Row of the `k`-th cell of the ship.
    pub open spec fn cell_y(self, k: int) -> int {
        if self.vertical {
            self.y_start_location + k
        } else {
            self.y_start_location as int
        }
    }

    /// Whether the ship occupies cell `(x, y)`.
    pub open spec fn covers(self, x: int, y: int) -> bool {
        if self.vertical {
            x == self.x_start_location && self.y_start_location <= y < self.y_start_location
                + self.size
        } else {
            y == self.y_start_location && self.x_start_location <= x < self.x_start_location
                + self.size
        }
    }

    /// Whether every cell of the ship lies on the board.
    pub open spec fn fits(self) -> bool {
        if self.vertical {
            self.x_start_location < 10 && self.y_start_location + self.size <= 10
        } else {
            self.y_start_location < 10 && self.x_start_location + self.size <= 10
        }
    }

    /// Number of cells among the first `n` cells of the ship that are marked in `shot`.
    pub open spec fn hits_among(self, shot: Seq<bool>, n: int) -> nat
        decreases n,
    {
        if n <= 0 {
            0
        } else {
            self.hits_among(shot, n - 1) + if shot[cell_index(self.cell_x(n - 1), self.cell_y(n - 1))] {
                1nat
            } else {
                0nat
            }
        }
    }

    /// Number of the ship's cells that are marked in `shot`.
    pub open spec fn cells_shot(self, shot: Seq<bool>) -> nat {
        self.hits_among(shot, self.size as int)
    }

    /// Whether every cell of the ship has been hit.
    pub open spec fn is_sunk(self) -> bool {
        self.sunken_fields == self.size
    }

    /// A ship of `new_size` cells starting at `(x_location, y_location)`, not yet hit.
    pub fn new(new_size: u8, x_location: u8, y_location: u8, vertical: bool) -> (r: Ship)
        ensures
            r == (Ship {
                size: new_size,
                x_start_location: x_location,
                y_start_location: y_location,
                vertical,
                sunken_fields: 0,
            }),
    {
        Ship {
            size: new_size,
            x_start_location: x_location,
            y_start_location: y_location,
            vertical,
            sunken_fields: 0,
        }
    }

    /// Whether every cell of the ship has been hit.
    pub fn sunk(&mut self) -> (r: bool)
        ensures
            *final(self) == *old(self),
            r == old(self).is_sunk(),
    {
        self.sunken_fields == self.size
    }
}

/// The cells of a fitting ship are on the board, and cell `k` is covered by it.
pub proof fn lemma_cell_of_ship(s: Ship, k: int)
    requires
        s.fits(),
        0 <= k < s.size,
    ensures
        in_board(s.cell_x(k), s.cell_y(k)),
        s.covers(s.cell_x(k), s.cell_y(k)),
{
}

/// At most `n` of the first `n` cells of a ship are shot.
pub proof fn lemma_hits_bounded(s: Ship, shot: Seq<bool>, n: int)
    requires
        0 <= n,
    ensures
        s.hits_among(shot, n) <= n,
    decreases n,
{
    if n > 0 {
        lemma_hits_bounded(s, shot, n - 1);
    }
}

/// Shooting more cells never lowers the number of a ship's cells that are shot.
pub proof fn lemma_hits_monotone(s: Ship, shot: Seq<bool>, more: Seq<bool>, n: int)
    requires
        0 <= n <= s.size,
        s.fits(),
        shot.len() == 100,
        more.len() == 100,
        forall|q: int| 0 <= q < 100 && #[trigger] shot[q] ==> more[q],
    ensures
        s.hits_among(shot, n) <= s.hits_among(more, n),
    decreases n,
{
    if n > 0 {
        lemma_hits_monotone(s, shot, more, n - 1);
        lemma_cell_of_ship(s, n - 1);
    }
}

/// Shooting the unshot cell `m` of a ship adds one to the count of its shot
/// cells among the first `n`, if `m` is among them.
pub proof fn lemma_hits_mark(s: Ship, shot: Seq<bool>, m: int, n: int)
    requires
        0 <= m < s.size,
        0 <= n <= s.size,
        s.fits(),
        shot.len() == 100,
        !shot[cell_index(s.cell_x(m), s.cell_y(m))],
    ensures
        s.hits_among(shot.update(cell_index(s.cell_x(m), s.cell_y(m)), true), n) == s.hits_among(
            shot,
            n,
        ) + if m < n {
            1nat
        } else {
            0nat
        },
    decreases n,
{
    if n > 0 {
        lemma_hits_mark(s, shot, m, n - 1);
        lemma_cell_of_ship(s, n - 1);
        lemma_cell_of_ship(s, m);
    }
}

/// A ship with an unshot cell has fewer shot cells than its size.
pub proof fn lemma_unshot_cell(s: Ship, shot: Seq<bool>, m: int)
    requires
        0 <= m < s.size,
        s.fits(),
        shot.len() == 100,
        !shot[cell_index(s.cell_x(m), s.cell_y(m))],
    ensures
        s.cells_shot(shot) < s.size,
        s.cells_shot(shot.update(cell_index(s.cell_x(m), s.cell_y(m)), true)) == s.cells_shot(shot)
            + 1,
{
    lemma_hits_mark(s, shot, m, s.size as int);
    lemma_hits_bounded(s, shot.update(cell_index(s.cell_x(m), s.cell_y(m)), true), s.size as int);
}

/// The position along a ship of a cell that it covers.
pub open spec fn offset_of(s: Ship, x: int, y: int) -> int {
    if s.vertical {
        y - s.y_start_location
    } else {
        x - s.x_start_location
    }
}

/// A covered cell is the ship's cell at its offset.
pub proof fn lemma_offset(s: Ship, x: int, y: int)
    requires
        s.covers(x, y),
    ensures
        0 <= offset_of(s, x, y) < s.size,
        s.cell_x(offset_of(s, x, y)) == x,
        s.cell_y(offset_of(s, x, y)) == y,
{
}

/// The count of shot cells depends on where a ship lies, not on its hits.
pub proof fn lemma_hits_same_place(s: Ship, t: Ship, shot: Seq<bool>, n: int)
    requires
        s.size == t.size,
        s.x_start_location == t.x_start_location,
        s.y_start_location == t.y_start_location,
        s.vertical == t.vertical,
    ensures
        s.hits_among(shot, n) == t.hits_among(shot, n),
    decreases n,
{
    if n > 0 {
        lemma_hits_same_place(s, t, shot, n - 1);
    }
}

} // verus!
