//! One player's board: own fleet, shots received, and what is known of the
//! opponent's fleet.

use vstd::prelude::*;
use crate::grid::{cell_index, count_marked, count_prefix, in_board, marked, Grid};
use crate::placement::{
    agrees_before, is_straight_line, lemma_broken_line, lemma_count_union, lemma_whole_line, line,
    line_so_far, marks_exactly, near, none_before, placement_ok, selected_ship, touches, union,
};
use crate::inference::{count_sunk, first_gap, inferred_ship, lemma_first_gap, probe, Compass};
use crate::ships::Ship;

verus! {

/// A board cell, by column `x` and row `y`, both counted from 0.
#[derive(Clone, Copy, PartialEq, Eq, Structural, Debug)]
pub struct Block {
    pub x: u8,
    pub y: u8,
}

/// What the player did while selecting the cells of a ship.
#[derive(Clone, Copy, PartialEq, Eq, Structural, Debug)]
pub enum SetupEvent {
    /// Touched a board cell: its mark is toggled.
    Touch(Block),
    /// Pressed the confirm button: the selection is checked.
    Confirm,
}

/// What the display is to do after a [`SetupEvent`].
#[derive(Clone, Copy, PartialEq, Eq, Structural, Debug)]
pub enum SetupAction {
    /// Show the cell as selected.
    Mark(Block),
    /// Show the cell as no longer selected.
    Unmark(Block),
    /// The selection became a ship: draw it and go on to the next one.
    Placed,
    /// The selection was no valid ship: it is cleared, select this ship again.
    Retry,
}

/// The fleet each player places, in order of placement.
pub open spec fn fleet() -> Seq<u8> {
    seq![5u8, 4u8, 3u8, 3u8, 2u8]
}

/// One player's side of a match: the own fleet with its grids, and what is
/// known of the opponent's fleet.
pub struct Board {
    ships: Vec<Ship>,
    fields_shot: Grid,
    setup_field: Grid,
    placed_ships: Grid,
    pub enemy_ships_hit: Grid,
    remaining_enemy_ships: [u8; 4],
    pub enemy_fields_shot: Grid,
}

/// The mathematical content of a [`Board`].
pub struct BoardView {
    /// The own fleet, in order of placement.
    pub ships: Seq<Ship>,
    /// Own cells the opponent has fired at.
    pub fields_shot: Seq<bool>,
    /// Cells selected for the ship being placed.
    pub setup_field: Seq<bool>,
    /// Cells occupied by the own fleet.
    pub placed_ships: Seq<bool>,
    /// Opponent cells where a shot of ours hit.
    pub enemy_ships_hit: Seq<bool>,
    /// Opponent ships still afloat, for lengths 2, 3, 4 and 5.
    pub remaining_enemy_ships: Seq<u8>,
    /// Opponent cells we have fired at.
    pub enemy_fields_shot: Seq<bool>,
}

/// Sum of the sizes of `ships`.
pub open spec fn sum_sizes(ships: Seq<Ship>) -> nat
    decreases ships.len(),
{
    if ships.len() == 0 {
        0
    } else {
        sum_sizes(ships.drop_last()) + ships.last().size as nat
    }
}

/// Number of ships of `size` cells in `ships` that are not sunk.
pub open spec fn afloat_of_size(ships: Seq<Ship>, size: int) -> nat
    decreases ships.len(),
{
    if ships.len() == 0 {
        0
    } else {
        afloat_of_size(ships.drop_last(), size) + if ships.last().size == size
            && !ships.last().is_sunk() {
            1nat
        } else {
            0nat
        }
    }
}

/// Whether some ship of `ships` covers `(x, y)`.
pub open spec fn occupied(ships: Seq<Ship>, x: int, y: int) -> bool {
    exists|i: int| 0 <= i < ships.len() && #[trigger] ships[i].covers(x, y)
}

/// Index of the first ship of `ships` that covers `(x, y)`.
pub open spec fn find_ship(ships: Seq<Ship>, x: int, y: int) -> Option<int>
    decreases ships.len(),
{
    if ships.len() == 0 {
        None
    } else {
        match find_ship(ships.drop_last(), x, y) {
            Some(i) => Some(i),
            None => if ships.last().covers(x, y) {
                Some(ships.len() - 1)
            } else {
                None
            },
        }
    }
}

impl BoardView {
    /// The board's invariant: grids of the right size, every ship on the board,
    /// no two ships sharing a cell, the occupancy grid marking exactly the
    /// fleet's cells, and no ship counting more hits than it has shot cells.
    pub open spec fn wf(self) -> bool {
        &&& self.fields_shot.len() == 100
        &&& self.setup_field.len() == 100
        &&& self.placed_ships.len() == 100
        &&& self.enemy_ships_hit.len() == 100
        &&& self.enemy_fields_shot.len() == 100
        &&& self.remaining_enemy_ships.len() == 4
        &&& forall|i: int|
            0 <= i < self.ships.len() ==> {
                &&& (#[trigger] self.ships[i]).fits()
                &&& self.ships[i].sunken_fields <= self.ships[i].cells_shot(self.fields_shot)
            }
        &&& forall|i: int, j: int, x: int, y: int|
            0 <= i < j < self.ships.len() && #[trigger] self.ships[i].covers(x, y)
                ==> !#[trigger] self.ships[j].covers(x, y)
        &&& forall|x: int, y: int|
            in_board(x, y) ==> (#[trigger] self.placed_ships[cell_index(x, y)] <==> occupied(
                self.ships,
                x,
                y,
            ))
        &&& sum_sizes(self.ships) == count_marked(self.placed_ships)
    }

    /// The board after the selection has been committed as a ship of `len`
    /// cells: the ship joins the fleet and its cells the occupancy grid.
    pub open spec fn with_selected_ship(self, len: u8) -> BoardView {
        BoardView {
            ships: self.ships.push(selected_ship(self.setup_field, len)),
            placed_ships: union(self.placed_ships, self.setup_field),
            ..self
        }
    }

    /// The board after the hit at `(x, y)` sank an opponent ship: its length
    /// is counted off the remaining opponent fleet.
    pub open spec fn with_enemy_sunk_at(self, x: int, y: int) -> BoardView {
        BoardView {
            remaining_enemy_ships: count_sunk(
                self.remaining_enemy_ships,
                inferred_ship(self.enemy_ships_hit, x, y).3,
            ),
            ..self
        }
    }

    /// What a shot of the opponent at own cell `(x, y)` reports: whether it
    /// hit, and the size of the ship it sank (0 if none). A cell shot before
    /// reports no hit.
    pub open spec fn shot_result(self, x: int, y: int) -> (bool, u8) {
        if self.fields_shot[cell_index(x, y)] {
            (false, 0)
        } else {
            match find_ship(self.ships, x, y) {
                None => (false, 0),
                Some(i) => if self.ships[i].sunken_fields + 1 == self.ships[i].size {
                    (true, self.ships[i].size)
                } else {
                    (true, 0)
                },
            }
        }
    }

    /// The board after a shot of the opponent at own cell `(x, y)`: the cell
    /// is marked shot and, if it was not shot before, the ship on it counts
    /// one more hit.
    pub open spec fn after_shot(self, x: int, y: int) -> BoardView {
        if self.fields_shot[cell_index(x, y)] {
            self
        } else {
            let shot = self.fields_shot.update(cell_index(x, y), true);
            match find_ship(self.ships, x, y) {
                None => BoardView { fields_shot: shot, ..self },
                Some(i) => BoardView {
                    fields_shot: shot,
                    ships: self.ships.update(
                        i,
                        Ship { sunken_fields: (self.ships[i].sunken_fields + 1) as u8, ..self.ships[i] },
                    ),
                    ..self
                },
            }
        }
    }

    /// The board after a setup event while placing a ship of `length` cells:
    /// a touch toggles the cell in the selection; a confirmation commits the
    /// selection if it is a valid ship, and clears it either way.
    pub open spec fn after_setup_event(self, length: u8, event: SetupEvent) -> BoardView {
        match event {
            SetupEvent::Touch(b) => BoardView {
                setup_field: self.setup_field.update(
                    cell_index(b.x as int, b.y as int),
                    !self.setup_field[cell_index(b.x as int, b.y as int)],
                ),
                ..self
            },
            SetupEvent::Confirm => BoardView {
                setup_field: Seq::new(100, |i: int| false),
                ..if placement_ok(self.setup_field, self.placed_ships, length) {
                    self.with_selected_ship(length)
                } else {
                    self
                }
            },
        }
    }

    /// The display's response to a setup event while placing a ship of
    /// `length` cells.
    pub open spec fn setup_response(self, length: u8, event: SetupEvent) -> SetupAction {
        match event {
            SetupEvent::Touch(b) => if self.setup_field[cell_index(b.x as int, b.y as int)] {
                SetupAction::Unmark(b)
            } else {
                SetupAction::Mark(b)
            },
            SetupEvent::Confirm => if placement_ok(self.setup_field, self.placed_ships, length) {
                SetupAction::Placed
            } else {
                SetupAction::Retry
            },
        }
    }

    /// Whether every ship of the fleet has been hit on all its cells.
    pub open spec fn all_sunk(self) -> bool {
        forall|i: int| 0 <= i < self.ships.len() ==> (#[trigger] self.ships[i]).is_sunk()
    }
}

impl View for Board {
    type V = BoardView;

    closed spec fn view(&self) -> BoardView {
        BoardView {
            ships: self.ships@,
            fields_shot: self.fields_shot@,
            setup_field: self.setup_field@,
            placed_ships: self.placed_ships@,
            enemy_ships_hit: self.enemy_ships_hit@,
            remaining_enemy_ships: self.remaining_enemy_ships@,
            enemy_fields_shot: self.enemy_fields_shot@,
        }
    }
}

impl Board {
    /// Whether the board satisfies its invariant.
    pub open spec fn wf(&self) -> bool {
        self@.wf()
    }

    /// A board with the given fleet and own grids, nothing known of the
    /// opponent yet, and the opponent's full fleet afloat.
    pub fn new(ships: Vec<Ship>, fields_shot: Grid, setup_field: Grid, placed_ships: Grid) -> (r:
        Board)
        requires
            (BoardView {
                ships: ships@,
                fields_shot: fields_shot@,
                setup_field: setup_field@,
                placed_ships: placed_ships@,
                enemy_ships_hit: Seq::new(100, |i: int| false),
                remaining_enemy_ships: seq![1u8, 2u8, 1u8, 1u8],
                enemy_fields_shot: Seq::new(100, |i: int| false),
            }).wf(),
        ensures
            r@ == (BoardView {
                ships: ships@,
                fields_shot: fields_shot@,
                setup_field: setup_field@,
                placed_ships: placed_ships@,
                enemy_ships_hit: Seq::new(100, |i: int| false),
                remaining_enemy_ships: seq![1u8, 2u8, 1u8, 1u8],
                enemy_fields_shot: Seq::new(100, |i: int| false),
            }),
            r.wf(),
    {
        let r = Board {
            ships,
            fields_shot,
            setup_field,
            placed_ships,
            enemy_ships_hit: Grid::new(),
            remaining_enemy_ships: [1, 2, 1, 1],
            enemy_fields_shot: Grid::new(),
        };
        assert(r@.enemy_ships_hit =~= Seq::new(100, |i: int| false));
        assert(r@.enemy_fields_shot =~= Seq::new(100, |i: int| false));
        assert(r@.remaining_enemy_ships =~= seq![1u8, 2u8, 1u8, 1u8]);
        r
    }

    /// The board cell under the display point `(x, y)`, if the point lies on
    /// the board: cells are 25 points wide, and the board starts 25 points
    /// from the display's corner.
    pub fn calculate_touch_block(&mut self, x: u16, y: u16) -> (r: Option<Block>)
        ensures
            *final(self) == *old(self),
            r == if 24 < x <= 272 && 24 < y <= 272 {
                Some(Block { x: (x / 25 - 1) as u8, y: (y / 25 - 1) as u8 })
            } else {
                None
            },
            r matches Some(b) ==> b.x < 10 && b.y < 10,
    {
        if x <= 272 && x > 24 && y <= 272 && y > 24 {
            Some(Block { x: (x / 25 - 1) as u8, y: (y / 25 - 1) as u8 })
        } else {
            None
        }
    }

    /// Whether every ship of the fleet is sunk.
    pub fn check_win(&mut self) -> (r: bool)
        ensures
            *final(self) == *old(self),
            r == old(self)@.all_sunk(),
    {
        let mut i: usize = 0;
        while i < self.ships.len()
            invariant
                i <= self.ships@.len(),
                forall|k: int| 0 <= k < i ==> (#[trigger] self.ships@[k]).is_sunk(),
            decreases self.ships@.len() - i,
        {
            if self.ships[i].size != self.ships[i].sunken_fields {
                assert(!self@.ships[i as int].is_sunk());
                return false;
            }
            i += 1;
        }
        true
    }

    /// The opponent ships still afloat, for lengths 2, 3, 4 and 5.
    pub fn get_enemy_ships_of_len(&mut self) -> (r: (u8, u8, u8, u8))
        requires
            old(self).wf(),
        ensures
            *final(self) == *old(self),
            r == (
                old(self)@.remaining_enemy_ships[0],
                old(self)@.remaining_enemy_ships[1],
                old(self)@.remaining_enemy_ships[2],
                old(self)@.remaining_enemy_ships[3],
            ),
    {
        (
            self.remaining_enemy_ships[0],
            self.remaining_enemy_ships[1],
            self.remaining_enemy_ships[2],
            self.remaining_enemy_ships[3],
        )
    }
}

impl Board {
    /// Whether exactly `len` cells of the selection are marked.
    fn ship_length_correct(&self, len: u8) -> (r: bool)
        ensures
            r == (count_marked(self@.setup_field) == len),
    {
        let mut marked_fields: u8 = 0;
        let mut i: u8 = 0;
        while i < 10
            invariant
                i <= 10,
                marked_fields as int == count_prefix(self@.setup_field, i * 10),
                marked_fields <= i * 10,
            decreases 10 - i,
        {
            let mut j: u8 = 0;
            while j < 10
                invariant
                    i < 10,
                    j <= 10,
                    marked_fields as int == count_prefix(self@.setup_field, i * 10 + j),
                    marked_fields <= i * 10 + j,
                decreases 10 - j,
            {
                if self.setup_field.get(i, j) {
                    marked_fields += 1;
                }
                j += 1;
            }
            i += 1;
        }
        marked_fields == len
    }

    /// The ship that the selection forms, if it is a straight, gap-free line
    /// of `len` cells: the selection is scanned row by row, the first marked
    /// cell starts the line, the second fixes its axis, and each later one
    /// must extend it by one cell.
    fn straight_ship(&self, len: u8) -> (r: Option<Ship>)
        requires
            self@.setup_field.len() == 100,
            count_marked(self@.setup_field) == len,
        ensures
            r is Some <==> is_straight_line(self@.setup_field, len),
            r matches Some(s) ==> s == selected_ship(self@.setup_field, len),
    {
        let ghost g = self@.setup_field;
        let mut x_start: u8 = 0;
        let mut y_start: u8 = 0;
        let mut x_pos: u8 = 0;
        let mut y_pos: u8 = 0;
        let mut found = false;
        let mut vertical = false;
        let mut direction_known = false;
        let ghost mut n: int = 0;
        let mut i: u8 = 0;
        while i < 10
            invariant
                g == self@.setup_field,
                g.len() == 100,
                count_marked(g) == len,
                i <= 10,
                n == count_prefix(g, i * 10),
                !found ==> n == 0 && x_start == 0 && y_start == 0 && !vertical && none_before(
                    g,
                    i * 10,
                ),
                found ==> line_so_far(g, x_start, y_start, vertical, n, i * 10),
                found ==> x_pos == line(x_start, y_start, vertical, n).cell_x(n - 1) && y_pos
                    == line(x_start, y_start, vertical, n).cell_y(n - 1),
                direction_known <==> (found && n >= 2),
            decreases 10 - i,
        {
            let mut j: u8 = 0;
            while j < 10
                invariant
                    g == self@.setup_field,
                    g.len() == 100,
                    count_marked(g) == len,
                    i < 10,
                    j <= 10,
                    n == count_prefix(g, i * 10 + j),
                    !found ==> n == 0 && x_start == 0 && y_start == 0 && !vertical && none_before(
                        g,
                        i * 10 + j,
                    ),
                    found ==> line_so_far(g, x_start, y_start, vertical, n, i * 10 + j),
                    found ==> x_pos == line(x_start, y_start, vertical, n).cell_x(n - 1) && y_pos
                        == line(x_start, y_start, vertical, n).cell_y(n - 1),
                    direction_known <==> (found && n >= 2),
                decreases 10 - j,
            {
                let ghost p = i * 10 + j;
                if self.setup_field.get(i, j) {
                    if !found {
                        found = true;
                        x_start = i;
                        y_start = j;
                        x_pos = i;
                        y_pos = j;
                        proof {
                            n = 1;
                            crate::placement::lemma_count_prefix_mono(g, p, p);
                        }
                    } else {
                        let ghost old_n = n;
                        let ghost old_v = vertical;
                        if !extends_line(x_pos, y_pos, vertical, direction_known, i, j) {
                            proof {
                                lemma_broken_line(g, len, x_start, y_start, vertical, n, i as int, j as int);
                            }
                            return None;
                        }
                        if !direction_known {
                            vertical = i == x_pos;
                            direction_known = true;
                        }
                        x_pos = i;
                        y_pos = j;
                        proof {
                            n = n + 1;
                            crate::placement::lemma_count_prefix_mono(g, p, p);
                            let l = line(x_start, y_start, vertical, n);
                            assert(agrees_before(g, l, p + 1)) by {
                                assert forall|x: int, y: int|
                                    in_board(x, y) && cell_index(x, y) < p + 1 implies (#[trigger] g[cell_index(x, y)]
                                    <==> l.covers(x, y)) by {
                                    if cell_index(x, y) < p {
                                        assert(line(x_start, y_start, old_v, old_n).covers(x, y) <==> l.covers(x, y)
                                            || (x == i && y == j));
                                    } else {
                                        crate::placement::lemma_index_injective(x, y, i as int, j as int);
                                    }
                                }
                            }
                        }
                    }
                }
                j += 1;
            }
            i += 1;
        }
        proof {
            lemma_whole_line(g, len, found, x_start, y_start, vertical, n);
        }
        Some(Ship::new(len, x_start, y_start, vertical))
    }
}

impl Board {
    /// Whether a placed ship occupies a cell in the 3 x 3 neighbourhood of
    /// `(x, y)`, clipped to the board.
    fn near_placed(&self, x: u8, y: u8) -> (r: bool)
        requires
            x < 10,
            y < 10,
        ensures
            r == near(self@.placed_ships, x as int, y as int),
    {
        let ghost pl = self@.placed_ships;
        let k_lo: u8 = if x == 0 { 0 } else { x - 1 };
        let k_hi: u8 = if x == 9 { 9 } else { x + 1 };
        let l_lo: u8 = if y == 0 { 0 } else { y - 1 };
        let l_hi: u8 = if y == 9 { 9 } else { y + 1 };
        let mut k = k_lo;
        while k <= k_hi
            invariant
                pl == self@.placed_ships,
                x < 10,
                y < 10,
                k_lo <= k <= k_hi + 1,
                k_hi <= 9,
                k_lo == if x == 0 { 0 } else { x - 1 },
                k_hi == if x == 9 { 9 } else { x + 1 },
                l_lo == if y == 0 { 0 } else { y - 1 },
                l_hi == if y == 9 { 9 } else { y + 1 },
                forall|a: int, b: int|
                    x - 1 <= a < k && y - 1 <= b <= y + 1 ==> !#[trigger] marked(pl, a, b),
            decreases k_hi + 1 - k,
        {
            let mut l = l_lo;
            while l <= l_hi
                invariant
                    pl == self@.placed_ships,
                    x < 10,
                    y < 10,
                    k_lo <= k <= k_hi,
                    k_hi <= 9,
                    l_lo <= l <= l_hi + 1,
                    l_hi <= 9,
                    k_lo == if x == 0 { 0 } else { x - 1 },
                    k_hi == if x == 9 { 9 } else { x + 1 },
                    l_lo == if y == 0 { 0 } else { y - 1 },
                    l_hi == if y == 9 { 9 } else { y + 1 },
                    forall|a: int, b: int|
                        (x - 1 <= a < k && y - 1 <= b <= y + 1) || (a == k && y - 1 <= b < l)
                            ==> !#[trigger] marked(pl, a, b),
                decreases l_hi + 1 - l,
            {
                if self.placed_ships.get(k, l) {
                    assert(marked(pl, k as int, l as int));
                    return true;
                }
                l += 1;
            }
            k += 1;
        }
        false
    }

    /// Whether some selected cell lies next to, or on, a placed ship.
    fn touches_placed(&self) -> (r: bool)
        ensures
            r == touches(self@.setup_field, self@.placed_ships),
    {
        let ghost g = self@.setup_field;
        let ghost pl = self@.placed_ships;
        let mut i: u8 = 0;
        while i < 10
            invariant
                g == self@.setup_field,
                pl == self@.placed_ships,
                i <= 10,
                forall|x: int, y: int|
                    0 <= x < i && 0 <= y < 10 ==> !(#[trigger] marked(g, x, y) && near(pl, x, y)),
            decreases 10 - i,
        {
            let mut j: u8 = 0;
            while j < 10
                invariant
                    g == self@.setup_field,
                    pl == self@.placed_ships,
                    i < 10,
                    j <= 10,
                    forall|x: int, y: int|
                        (0 <= x < i && 0 <= y < 10) || (x == i && 0 <= y < j) ==> !(
                        #[trigger] marked(g, x, y) && near(pl, x, y)),
                decreases 10 - j,
            {
                if self.setup_field.get(i, j) && self.near_placed(i, j) {
                    assert(marked(g, i as int, j as int));
                    return true;
                }
                j += 1;
            }
            i += 1;
        }
        false
    }

    /// Marks every selected cell as occupied.
    fn occupy_selection(&mut self)
        requires
            old(self)@.placed_ships.len() == 100,
            old(self)@.setup_field.len() == 100,
        ensures
            final(self)@ == (BoardView {
                placed_ships: union(old(self)@.placed_ships, old(self)@.setup_field),
                ..old(self)@
            }),
    {
        let ghost g = self@.setup_field;
        let ghost pl = self@.placed_ships;
        let mut i: u8 = 0;
        while i < 10
            invariant
                i <= 10,
                self@ == (BoardView { placed_ships: self@.placed_ships, ..old(self)@ }),
                g == old(self)@.setup_field,
                pl == old(self)@.placed_ships,
                self@.placed_ships.len() == 100,
                forall|q: int|
                    0 <= q < 100 ==> #[trigger] self@.placed_ships[q] == (pl[q] || (q < i * 10
                        && g[q])),
            decreases 10 - i,
        {
            let mut j: u8 = 0;
            while j < 10
                invariant
                    i < 10,
                    j <= 10,
                    self@ == (BoardView { placed_ships: self@.placed_ships, ..old(self)@ }),
                    g == old(self)@.setup_field,
                    pl == old(self)@.placed_ships,
                    self@.placed_ships.len() == 100,
                    forall|q: int|
                        0 <= q < 100 ==> #[trigger] self@.placed_ships[q] == (pl[q] || (q < i * 10
                            + j && g[q])),
                decreases 10 - j,
            {
                if self.setup_field.get(i, j) {
                    self.placed_ships.set(i, j, true);
                }
                j += 1;
            }
            i += 1;
        }
        assert(self@.placed_ships =~= union(pl, g));
    }

    /// Checks the selection as a ship of `len` cells and, if it is one, adds
    /// it to the fleet: it must mark exactly `len` cells, in one straight
    /// line without gaps, none of them on or next to (diagonals included) a
    /// ship already placed. The selection itself is left as it is.
    pub fn get_valid_ship(&mut self, len: u8) -> (r: bool)
        requires
            old(self).wf(),
        ensures
            final(self).wf(),
            r == placement_ok(old(self)@.setup_field, old(self)@.placed_ships, len),
            r ==> final(self)@ == old(self)@.with_selected_ship(len),
            !r ==> final(self)@ == old(self)@,
    {
        if !self.ship_length_correct(len) {
            return false;
        }
        let ship = match self.straight_ship(len) {
            None => {
                return false;
            },
            Some(s) => s,
        };
        if self.touches_placed() {
            return false;
        }
        proof {
            lemma_placement_keeps_wf(self@, len);
        }
        self.occupy_selection();
        self.ships.push(ship);
        assert(self@ =~= old(self)@.with_selected_ship(len));
        true
    }
}

impl Board {
    /// Whether a hit is recorded on the opponent's cell `(x, y)`; a cell off
    /// the board holds none.
    fn get_enemy_helper(&self, x: i8, y: i8) -> (r: bool)
        ensures
            r == marked(self@.enemy_ships_hit, x as int, y as int),
    {
        if x < 0 || x > 9 || y < 0 || y > 9 {
            return false;
        }
        self.enemy_ships_hit.get(x as u8, y as u8)
    }

    /// Whether the probe `k` cells from `(x, y)` in direction `d` finds a hit.
    fn probe_enemy(&self, x: u8, y: u8, d: Compass, k: u8) -> (r: bool)
        requires
            x < 10,
            y < 10,
            k <= 5,
        ensures
            r == probe(self@.enemy_ships_hit, x as int, y as int, d, k as int),
    {
        let (xi, yi, ki) = (x as i8, y as i8, k as i8);
        match d {
            Compass::East => self.get_enemy_helper(xi + ki, yi),
            Compass::South => self.get_enemy_helper(xi, yi + ki),
            Compass::West => self.get_enemy_helper(xi - ki, yi),
            Compass::North => self.get_enemy_helper(xi, yi - ki),
        }
    }

    /// The first distance from `from` up to 5 at which the probe in direction
    /// `d` finds no hit, or 0 when every one of them hits.
    fn enemy_gap(&self, x: u8, y: u8, d: Compass, from: u8) -> (r: u8)
        requires
            x < 10,
            y < 10,
            1 <= from <= 2,
        ensures
            r as int == first_gap(self@.enemy_ships_hit, x as int, y as int, d, from as int),
    {
        let ghost g = self@.enemy_ships_hit;
        let mut k: u8 = from;
        while k <= 5
            invariant
                g == self@.enemy_ships_hit,
                x < 10,
                y < 10,
                from <= k <= 6,
                first_gap(g, x as int, y as int, d, from as int) == first_gap(
                    g,
                    x as int,
                    y as int,
                    d,
                    k as int,
                ),
            decreases 6 - k,
        {
            if !self.probe_enemy(x, y, d, k) {
                return k;
            }
            k += 1;
        }
        0
    }

    /// Counts an opponent ship of `len` cells off the remaining opponent fleet.
    fn count_sunk_enemy(&mut self, len: u8)
        requires
            2 <= len <= 5,
            old(self)@.remaining_enemy_ships.len() == 4,
        ensures
            final(self)@ == (BoardView {
                remaining_enemy_ships: count_sunk(old(self)@.remaining_enemy_ships, len as int),
                ..old(self)@
            }),
    {
        let b = (len - 2) as usize;
        if self.remaining_enemy_ships[b] > 0 {
            self.remaining_enemy_ships[b] = self.remaining_enemy_ships[b] - 1;
        }
        assert(self@.remaining_enemy_ships =~= count_sunk(old(self)@.remaining_enemy_ships, len as int));
    }

    /// Works out, from the recorded hits alone, the opponent ship that the hit
    /// at `(x, y)` has just sunk, and counts it off the remaining opponent
    /// fleet. Returns `(start column, start row, vertical, length)`; a length
    /// of 0 means that no ship could be made out (see [`inferred_ship`]).
    pub fn get_enemy_ship_start_dir_len(&mut self, x: u8, y: u8) -> (r: (u8, u8, bool, u8))
        requires
            old(self).wf(),
            x < 10,
            y < 10,
        ensures
            final(self).wf(),
            final(self)@ == old(self)@.with_enemy_sunk_at(x as int, y as int),
            (r.0 as int, r.1 as int, r.2, r.3 as int) == inferred_ship(
                old(self)@.enemy_ships_hit,
                x as int,
                y as int,
            ),
    {
        let ghost g = self@.enemy_ships_hit;
        if !self.enemy_ships_hit.get(x, y) {
            return (0, 0, false, 0);
        }
        let xi = x as i8;
        let yi = y as i8;
        if !self.get_enemy_helper(xi - 1, yi) && !self.get_enemy_helper(xi, yi - 1) {
            if self.get_enemy_helper(xi + 1, yi) {
                let east = self.enemy_gap(x, y, Compass::East, 2);
                if east != 0 {
                    proof {
                        lemma_first_gap(g, x as int, y as int, Compass::East, 2);
                    }
                    self.count_sunk_enemy(east);
                    return (x, y, false, east);
                }
            }
            if self.get_enemy_helper(xi, yi + 1) {
                let south = self.enemy_gap(x, y, Compass::South, 2);
                if south != 0 {
                    proof {
                        lemma_first_gap(g, x as int, y as int, Compass::South, 2);
                    }
                    self.count_sunk_enemy(south);
                    return (x, y, true, south);
                }
            }
            (x, y, false, 0)
        } else if self.get_enemy_helper(xi - 1, yi) {
            let before = self.enemy_gap(x, y, Compass::West, 2);
            let after = self.enemy_gap(x, y, Compass::East, 1);
            proof {
                lemma_first_gap(g, x as int, y as int, Compass::West, 2);
                lemma_first_gap(g, x as int, y as int, Compass::East, 1);
            }
            if before != 0 && after != 0 && before + after - 1 <= 5 {
                proof {
                    if before > 2 {
                        assert(probe(g, x as int, y as int, Compass::West, before - 1));
                    }
                }
                let len = before + after - 1;
                self.count_sunk_enemy(len);
                (x + 1 - before, y, false, len)
            } else {
                (x, y, false, 0)
            }
        } else {
            let before = self.enemy_gap(x, y, Compass::North, 2);
            let after = self.enemy_gap(x, y, Compass::South, 1);
            proof {
                lemma_first_gap(g, x as int, y as int, Compass::North, 2);
                lemma_first_gap(g, x as int, y as int, Compass::South, 1);
            }
            if before != 0 && after != 0 && before + after - 1 <= 5 {
                proof {
                    if before > 2 {
                        assert(probe(g, x as int, y as int, Compass::North, before - 1));
                    }
                }
                let len = before + after - 1;
                self.count_sunk_enemy(len);
                (x, y + 1 - before, true, len)
            } else {
                (x, y, false, 0)
            }
        }
    }
}

impl Board {
    /// The index of the first ship of the fleet that occupies `(x, y)`.
    pub fn get_ship_at(&self, x: u8, y: u8) -> (r: Option<usize>)
        ensures
            r is None <==> find_ship(self@.ships, x as int, y as int) is None,
            r matches Some(i) ==> find_ship(self@.ships, x as int, y as int) == Some(i as int),
    {
        let ghost ships = self@.ships;
        let mut i: usize = 0;
        while i < self.ships.len()
            invariant
                ships == self@.ships,
                i <= ships.len(),
                forall|j: int| 0 <= j < i ==> !#[trigger] ships[j].covers(x as int, y as int),
            decreases ships.len() - i,
        {
            let ship = self.ships[i];
            let on_ship = if ship.vertical {
                x == ship.x_start_location && ship.y_start_location <= y && (y as u16)
                    < ship.y_start_location as u16 + ship.size as u16
            } else {
                y == ship.y_start_location && ship.x_start_location <= x && (x as u16)
                    < ship.x_start_location as u16 + ship.size as u16
            };
            if on_ship {
                assert(ships[i as int].covers(x as int, y as int));
                proof {
                    lemma_find_ship(ships, x as int, y as int);
                }
                return Some(i);
            }
            i += 1;
        }
        proof {
            lemma_find_ship(ships, x as int, y as int);
        }
        None
    }

    /// Resolves a shot of the opponent at own cell `block`: a cell shot
    /// before reports `(false, 0)` and changes nothing; otherwise the cell is
    /// marked shot, and a ship on it counts one more hit. Returns whether it
    /// hit, and the ship's size if this hit sank it (else 0).
    pub fn shoot_at(&mut self, block: Block) -> (r: (bool, u8))
        requires
            old(self).wf(),
            block.x < 10,
            block.y < 10,
        ensures
            final(self).wf(),
            r == old(self)@.shot_result(block.x as int, block.y as int),
            final(self)@ == old(self)@.after_shot(block.x as int, block.y as int),
    {
        let (x, y) = (block.x, block.y);
        proof {
            lemma_shot_keeps_wf(self@, x as int, y as int);
        }
        if self.fields_shot.get(x, y) {
            return (false, 0);
        }
        self.fields_shot.set(x, y, true);
        match self.get_ship_at(x, y) {
            None => (false, 0),
            Some(i) => {
                let mut ship = self.ships[i];
                ship.sunken_fields = ship.sunken_fields + 1;
                self.ships.set(i, ship);
                if ship.sunken_fields == ship.size {
                    (true, ship.size)
                } else {
                    (true, 0)
                }
            },
        }
    }
}

impl Board {
    /// The own ships still afloat, for lengths 2, 3, 4 and 5.
    pub fn get_own_ships_of_len(&mut self) -> (r: (u8, u8, u8, u8))
        requires
            old(self).wf(),
        ensures
            *final(self) == *old(self),
            r.0 as int == afloat_of_size(old(self)@.ships, 2),
            r.1 as int == afloat_of_size(old(self)@.ships, 3),
            r.2 as int == afloat_of_size(old(self)@.ships, 4),
            r.3 as int == afloat_of_size(old(self)@.ships, 5),
    {
        let ghost ships = self@.ships;
        proof {
            crate::placement::lemma_count_prefix_mono(self@.placed_ships, 100, 100);
        }
        let mut five: u8 = 0;
        let mut four: u8 = 0;
        let mut three: u8 = 0;
        let mut two: u8 = 0;
        let mut i: usize = 0;
        while i < self.ships.len()
            invariant
                ships == self@.ships,
                sum_sizes(ships) <= 100,
                i <= ships.len(),
                two as int == afloat_of_size(ships.take(i as int), 2),
                three as int == afloat_of_size(ships.take(i as int), 3),
                four as int == afloat_of_size(ships.take(i as int), 4),
                five as int == afloat_of_size(ships.take(i as int), 5),
            decreases ships.len() - i,
        {
            let ship = self.ships[i];
            proof {
                let next = ships.take(i + 1);
                assert(next.drop_last() =~= ships.take(i as int));
                lemma_sum_of_prefix(ships, i + 1);
                lemma_afloat_bound(next, 2);
                lemma_afloat_bound(next, 3);
                lemma_afloat_bound(next, 4);
                lemma_afloat_bound(next, 5);
            }
            if ship.sunken_fields != ship.size {
                if ship.size == 5 {
                    five += 1;
                } else if ship.size == 4 {
                    four += 1;
                } else if ship.size == 3 {
                    three += 1;
                } else if ship.size == 2 {
                    two += 1;
                }
            }
            i += 1;
        }
        assert(ships.take(i as int) =~= ships);
        (two, three, four, five)
    }
}

impl Board {
    /// Handles one event while the player places a ship of `length` cells.
    /// A touched cell is toggled in the selection. On confirmation the
    /// selection is checked with [`Board::get_valid_ship`] and then cleared:
    /// a rejected selection consumes no place in the fleet, and the same ship
    /// is selected again.
    pub fn setup_ship(&mut self, length: u8, event: SetupEvent) -> (r: SetupAction)
        requires
            old(self).wf(),
            event matches SetupEvent::Touch(b) ==> b.x < 10 && b.y < 10,
        ensures
            final(self).wf(),
            final(self)@ == old(self)@.after_setup_event(length, event),
            r == old(self)@.setup_response(length, event),
    {
        match event {
            SetupEvent::Touch(b) => {
                if !self.setup_field.get(b.x, b.y) {
                    self.setup_field.set(b.x, b.y, true);
                    SetupAction::Mark(b)
                } else {
                    self.setup_field.set(b.x, b.y, false);
                    SetupAction::Unmark(b)
                }
            },
            SetupEvent::Confirm => {
                let placed = self.get_valid_ship(length);
                self.setup_field.clear();
                assert(self@.setup_field =~= Seq::new(100, |i: int| false));
                if placed {
                    SetupAction::Placed
                } else {
                    SetupAction::Retry
                }
            },
        }
    }

    /// The size of the next ship to place, while the fleet is incomplete.
    pub fn next_ship_len(&self) -> (r: Option<u8>)
        ensures
            r == if self@.ships.len() < 5 {
                Some(fleet()[self@.ships.len() as int])
            } else {
                None
            },
    {
        let sizes: [u8; 5] = [5, 4, 3, 3, 2];
        assert(sizes@ =~= fleet());
        if self.ships.len() < 5 {
            Some(sizes[self.ships.len()])
        } else {
            None
        }
    }

    /// Handles one event while the player places the fleet, ships of 5, 4,
    /// 3, 3 and 2 cells in that order. Returns `None`, and changes nothing,
    /// once the fleet is complete.
    pub fn initial_setup(&mut self, event: SetupEvent) -> (r: Option<SetupAction>)
        requires
            old(self).wf(),
            event matches SetupEvent::Touch(b) ==> b.x < 10 && b.y < 10,
        ensures
            final(self).wf(),
            old(self)@.ships.len() >= 5 ==> r is None && final(self)@ == old(self)@,
            old(self)@.ships.len() < 5 ==> {
                let len = fleet()[old(self)@.ships.len() as int];
                &&& r == Some(old(self)@.setup_response(len, event))
                &&& final(self)@ == old(self)@.after_setup_event(len, event)
            },
    {
        match self.next_ship_len() {
            None => None,
            Some(len) => Some(self.setup_ship(len, event)),
        }
    }
}

impl Board {
    /// Records the opponent's answer to our shot at `block`: the cell is
    /// marked shot, and hit if `hit`. When `sunk_size` is not 0 the shot sank
    /// a ship, which is then worked out and counted off with
    /// [`Board::get_enemy_ship_start_dir_len`], whose result is returned.
    pub fn record_shot_feedback(&mut self, block: Block, hit: bool, sunk_size: u8) -> (r: Option<
        (u8, u8, bool, u8),
    >)
        requires
            old(self).wf(),
            block.x < 10,
            block.y < 10,
        ensures
            final(self).wf(),
            ({
                let c = cell_index(block.x as int, block.y as int);
                let marked_board = BoardView {
                    enemy_fields_shot: old(self)@.enemy_fields_shot.update(c, true),
                    enemy_ships_hit: if hit {
                        old(self)@.enemy_ships_hit.update(c, true)
                    } else {
                        old(self)@.enemy_ships_hit
                    },
                    ..old(self)@
                };
                if sunk_size == 0 {
                    &&& r is None
                    &&& final(self)@ == marked_board
                } else {
                    let e = inferred_ship(marked_board.enemy_ships_hit, block.x as int, block.y as int);
                    &&& r == Some((e.0 as u8, e.1 as u8, e.2, e.3 as u8))
                    &&& final(self)@ == marked_board.with_enemy_sunk_at(block.x as int, block.y as int)
                }
            }),
    {
        self.enemy_fields_shot.set(block.x, block.y, true);
        if hit {
            self.enemy_ships_hit.set(block.x, block.y, true);
        }
        if sunk_size == 0 {
            None
        } else {
            Some(self.get_enemy_ship_start_dir_len(block.x, block.y))
        }
    }

    /// Number of ships placed so far.
    pub fn ship_count(&self) -> (r: usize)
        ensures
            r == self@.ships.len(),
    {
        self.ships.len()
    }

    /// The `i`-th ship placed.
    pub fn ship(&self, i: usize) -> (r: Ship)
        requires
            i < self@.ships.len(),
        ensures
            r == self@.ships[i as int],
    {
        self.ships[i]
    }

    /// Whether own cell `(x, y)` is occupied by a ship.
    pub fn is_occupied(&self, x: u8, y: u8) -> (r: bool)
        requires
            x < 10,
            y < 10,
        ensures
            r == self@.placed_ships[cell_index(x as int, y as int)],
    {
        self.placed_ships.get(x, y)
    }

    /// Whether own cell `(x, y)` is in the selection for the ship being placed.
    pub fn is_selected(&self, x: u8, y: u8) -> (r: bool)
        requires
            x < 10,
            y < 10,
        ensures
            r == self@.setup_field[cell_index(x as int, y as int)],
    {
        self.setup_field.get(x, y)
    }

    /// Whether the opponent has fired at own cell `(x, y)`.
    pub fn is_shot(&self, x: u8, y: u8) -> (r: bool)
        requires
            x < 10,
            y < 10,
        ensures
            r == self@.fields_shot[cell_index(x as int, y as int)],
    {
        self.fields_shot.get(x, y)
    }
}

/// Whether cell `(i, j)` extends the line whose last cell is `(x_pos, y_pos)`:
/// along its axis once that is known, else right of it or below it.
fn extends_line(x_pos: u8, y_pos: u8, vertical: bool, direction_known: bool, i: u8, j: u8) -> (r: bool)
    requires
        x_pos < 10,
        y_pos < 10,
    ensures
        r == if !direction_known {
            (i == x_pos + 1 && j == y_pos) || (i == x_pos && j == y_pos + 1)
        } else if vertical {
            i == x_pos && j == y_pos + 1
        } else {
            i == x_pos + 1 && j == y_pos
        },
{
    if !direction_known {
        (i == x_pos + 1 && j == y_pos) || (i == x_pos && j == y_pos + 1)
    } else if vertical {
        i == x_pos && j == y_pos + 1
    } else {
        i == x_pos + 1 && j == y_pos
    }
}

/// A board with no ship placed, no cell shot and nothing known of the
/// opponent.
pub fn gameboard_init() -> (r: Board)
    ensures
        r.wf(),
        r@.ships.len() == 0,
        forall|i: int| 0 <= i < 100 ==> !#[trigger] r@.fields_shot[i],
        forall|i: int| 0 <= i < 100 ==> !#[trigger] r@.setup_field[i],
        forall|i: int| 0 <= i < 100 ==> !#[trigger] r@.placed_ships[i],
        forall|i: int| 0 <= i < 100 ==> !#[trigger] r@.enemy_ships_hit[i],
        forall|i: int| 0 <= i < 100 ==> !#[trigger] r@.enemy_fields_shot[i],
        r@.remaining_enemy_ships == seq![1u8, 2u8, 1u8, 1u8],
{
    let ships: Vec<Ship> = Vec::new();
    let fields_shot = Grid::new();
    let setup_field = Grid::new();
    let placed_ships = Grid::new();
    proof {
        lemma_count_none(placed_ships@, 100);
    }
    Board::new(ships, fields_shot, setup_field, placed_ships)
}

/// Committing an accepted selection keeps the board's invariant.
pub proof fn lemma_placement_keeps_wf(v: BoardView, len: u8)
    requires
        v.wf(),
        placement_ok(v.setup_field, v.placed_ships, len),
    ensures
        v.with_selected_ship(len).wf(),
{
    let g = v.setup_field;
    let pl = v.placed_ships;
    let s = selected_ship(g, len);
    let w = v.with_selected_ship(len);
    let n = v.ships.len();
    assert(marks_exactly(g, s));
    assert forall|i: int| 0 <= i < w.ships.len() implies {
        &&& (#[trigger] w.ships[i]).fits()
        &&& w.ships[i].sunken_fields <= w.ships[i].cells_shot(w.fields_shot)
    } by {
        if i < n {
            assert(w.ships[i] == v.ships[i]);
        }
    }
    assert forall|x: int, y: int| #[trigger] s.covers(x, y) implies !occupied(v.ships, x, y) by {
        assert(in_board(x, y));
        assert(g[cell_index(x, y)]);
        assert(marked(g, x, y));
        assert(!near(pl, x, y));
        assert(!marked(pl, x, y));
    }
    assert forall|i: int, j: int, x: int, y: int|
        0 <= i < j < w.ships.len() && #[trigger] w.ships[i].covers(x, y) implies !#[trigger] w.ships[j].covers(x, y) by {
        assert(w.ships[i] == v.ships[i]);
        if j < n {
            assert(w.ships[j] == v.ships[j]);
        } else {
            assert(occupied(v.ships, x, y));
        }
    }
    assert forall|x: int, y: int| in_board(x, y) implies (#[trigger] w.placed_ships[cell_index(x, y)]
        <==> occupied(w.ships, x, y)) by {
        if occupied(v.ships, x, y) {
            let i = choose|i: int| 0 <= i < v.ships.len() && #[trigger] v.ships[i].covers(x, y);
            assert(w.ships[i] == v.ships[i]);
        }
        if occupied(w.ships, x, y) {
            let i = choose|i: int| 0 <= i < w.ships.len() && #[trigger] w.ships[i].covers(x, y);
            if i < n {
                assert(w.ships[i] == v.ships[i]);
            }
        }
        if s.covers(x, y) {
            assert(w.ships[n as int] == s);
        }
    }
    assert forall|q: int| 0 <= q < 100 implies !(#[trigger] pl[q] && g[q]) by {
        let x = q / 10;
        let y = q % 10;
        assert(q == cell_index(x, y));
        if pl[q] && g[q] {
            assert(marked(g, x, y));
            assert(marked(pl, x, y));
        }
    }
    lemma_count_union(pl, g, 100);
    assert(w.ships.drop_last() =~= v.ships);
}

/// `find_ship` gives the first ship that covers the cell.
pub proof fn lemma_find_ship(ships: Seq<Ship>, x: int, y: int)
    ensures
        match find_ship(ships, x, y) {
            None => forall|j: int| 0 <= j < ships.len() ==> !#[trigger] ships[j].covers(x, y),
            Some(i) => 0 <= i < ships.len() && ships[i].covers(x, y) && forall|j: int|
                0 <= j < i ==> !#[trigger] ships[j].covers(x, y),
        },
    decreases ships.len(),
{
    if ships.len() > 0 {
        let init = ships.drop_last();
        lemma_find_ship(init, x, y);
        assert forall|j: int| 0 <= j < init.len() implies init[j] == ships[j] by {}
    }
}

/// Fleets whose ships have the same sizes have the same total size.
pub proof fn lemma_same_sizes(a: Seq<Ship>, b: Seq<Ship>)
    requires
        a.len() == b.len(),
        forall|i: int| 0 <= i < a.len() ==> (#[trigger] a[i]).size == b[i].size,
    ensures
        sum_sizes(a) == sum_sizes(b),
    decreases a.len(),
{
    if a.len() > 0 {
        lemma_same_sizes(a.drop_last(), b.drop_last());
    }
}

/// A shot keeps the board's invariant, and a ship hit on an unshot cell has
/// fewer hits than cells.
pub proof fn lemma_shot_keeps_wf(v: BoardView, x: int, y: int)
    requires
        v.wf(),
        in_board(x, y),
    ensures
        v.after_shot(x, y).wf(),
        !v.fields_shot[cell_index(x, y)] ==> match find_ship(v.ships, x, y) {
            None => true,
            Some(i) => 0 <= i < v.ships.len() && v.ships[i].sunken_fields < v.ships[i].size,
        },
{
    lemma_find_ship(v.ships, x, y);
    let c = cell_index(x, y);
    if !v.fields_shot[c] {
        let w = v.after_shot(x, y);
        let shot = v.fields_shot;
        let more = w.fields_shot;
        assert(more == shot.update(c, true));
        assert forall|i: int| 0 <= i < v.ships.len() implies v.ships[i].cells_shot(shot)
            <= #[trigger] v.ships[i].cells_shot(more) by {
            crate::ships::lemma_hits_monotone(v.ships[i], shot, more, v.ships[i].size as int);
        }
        match find_ship(v.ships, x, y) {
            None => {
                assert(w.ships == v.ships);
            },
            Some(k) => {
                let s = v.ships[k];
                crate::ships::lemma_offset(s, x, y);
                crate::ships::lemma_unshot_cell(s, shot, crate::ships::offset_of(s, x, y));
                assert forall|i: int| 0 <= i < w.ships.len() implies #[trigger] w.ships[i].covers(x, y) == v.ships[i].covers(x, y)
                    by {}
                assert forall|i: int| 0 <= i < w.ships.len() implies {
                    &&& (#[trigger] w.ships[i]).fits()
                    &&& w.ships[i].sunken_fields <= w.ships[i].cells_shot(w.fields_shot)
                } by {
                    if i != k {
                        assert(w.ships[i] == v.ships[i]);
                    } else {
                        crate::ships::lemma_hits_same_place(w.ships[i], s, more, s.size as int);
                    }
                }
                assert forall|i: int, j: int, a: int, b: int|
                    0 <= i < j < w.ships.len() && #[trigger] w.ships[i].covers(a, b) implies !#[trigger] w.ships[j].covers(a, b) by {
                    assert(w.ships[i].covers(a, b) == v.ships[i].covers(a, b));
                    assert(w.ships[j].covers(a, b) == v.ships[j].covers(a, b));
                }
                assert forall|a: int, b: int| in_board(a, b) implies (#[trigger] w.placed_ships[cell_index(a, b)]
                    <==> occupied(w.ships, a, b)) by {
                    if occupied(v.ships, a, b) {
                        let i = choose|i: int| 0 <= i < v.ships.len() && #[trigger] v.ships[i].covers(a, b);
                        assert(w.ships[i].covers(a, b));
                    }
                    if occupied(w.ships, a, b) {
                        let i = choose|i: int| 0 <= i < w.ships.len() && #[trigger] w.ships[i].covers(a, b);
                        assert(v.ships[i].covers(a, b));
                    }
                }
                lemma_same_sizes(w.ships, v.ships);
            },
        }
    }
}

/// A prefix of a fleet has no more cells than the whole fleet.
pub proof fn lemma_sum_of_prefix(ships: Seq<Ship>, i: int)
    requires
        0 <= i <= ships.len(),
    ensures
        sum_sizes(ships.take(i)) <= sum_sizes(ships),
    decreases ships.len(),
{
    if i == ships.len() {
        assert(ships.take(i) =~= ships);
    } else {
        let init = ships.drop_last();
        lemma_sum_of_prefix(init, i);
        assert(init.take(i) =~= ships.take(i));
    }
}

/// Ships of `size` cells afloat, at least two cells each, take up at least
/// twice their number in cells.
pub proof fn lemma_afloat_bound(ships: Seq<Ship>, size: int)
    requires
        2 <= size,
    ensures
        2 * afloat_of_size(ships, size) <= sum_sizes(ships),
    decreases ships.len(),
{
    if ships.len() > 0 {
        lemma_afloat_bound(ships.drop_last(), size);
    }
}

/// A grid with no marked cell among the first `n` counts none.
pub proof fn lemma_count_none(g: Seq<bool>, n: int)
    requires
        0 <= n <= g.len(),
        forall|i: int| 0 <= i < n ==> !#[trigger] g[i],
    ensures
        count_prefix(g, n) == 0,
    decreases n,
{
    if n > 0 {
        lemma_count_none(g, n - 1);
    }
}

} // verus!
