//! What the board guarantees across several operations.

use vstd::prelude::*;
use crate::gameboard::{lemma_find_ship, lemma_placement_keeps_wf, lemma_shot_keeps_wf, sum_sizes, find_ship, BoardView};
use crate::grid::{cell_index, count_marked, in_board, marked};
use crate::placement::{
    lemma_start, marks_exactly, near, none_before, placement_ok, runs_vertically, selected_ship,
    touches, union,
};
use crate::ships::{lemma_cell_of_ship, Ship};

verus! {

/// A selection that marks `len` cells forming a straight, gap-free line on
/// the board, clear of every placed ship and of the cells around them, is
/// accepted, and the occupancy grid then gains exactly `len` cells.
pub proof fn lemma_straight_selection_accepted(v: BoardView, sx: u8, sy: u8, vertical: bool, len: u8)
    requires
        v.wf(),
        count_marked(v.setup_field) == len,
        marks_exactly(v.setup_field, Ship { size: len, x_start_location: sx, y_start_location: sy, vertical, sunken_fields: 0 }),
        !touches(v.setup_field, v.placed_ships),
    ensures
        placement_ok(v.setup_field, v.placed_ships, len),
        count_marked(v.with_selected_ship(len).placed_ships) == count_marked(v.placed_ships) + len,
{
    let g = v.setup_field;
    let l = Ship { size: len, x_start_location: sx, y_start_location: sy, vertical, sunken_fields: 0 };
    let s = selected_ship(g, len);
    if len == 0 {
        assert forall|q: int| 0 <= q < 100 implies !#[trigger] g[q] by {
            assert(q == cell_index(q / 10, q % 10));
        }
        crate::placement::lemma_first_marked(g, 0, 100);
        assert(marks_exactly(g, s));
    } else {
        lemma_cell_of_ship(l, 0);
        assert(g[cell_index(sx as int, sy as int)]);
        assert forall|q: int| 0 <= q < cell_index(sx as int, sy as int) implies !#[trigger] g[q] by {
            let x = q / 10;
            let y = q % 10;
            assert(q == cell_index(x, y));
        }
        lemma_start(g, sx, sy);
        if len >= 2 {
            lemma_cell_of_ship(l, 1);
            if vertical {
                assert(runs_vertically(g));
            } else if sy + 1 < 10 {
                assert(!l.covers(sx as int, sy + 1));
            }
            assert(s == l);
        } else if sy + 1 < 10 {
            assert(!l.covers(sx as int, sy + 1));
        }
        assert(marks_exactly(g, s));
    }
    lemma_placement_keeps_wf(v, len);
    assert(v.with_selected_ship(len).ships.drop_last() =~= v.ships);
}

/// A selection that does not mark exactly `len` cells is refused as a ship
/// of `len` cells.
pub proof fn lemma_wrong_count_refused(g: Seq<bool>, placed: Seq<bool>, len: u8)
    requires
        count_marked(g) != len,
    ensures
        !placement_ok(g, placed, len),
{
}

/// Once a selection is placed as a ship, a second selection with a cell on or
/// next to (diagonals included) one of its cells is refused.
pub proof fn lemma_adjacent_refused(
    v: BoardView,
    len: u8,
    second: Seq<bool>,
    len2: u8,
    x1: int,
    y1: int,
    x2: int,
    y2: int,
)
    requires
        v.wf(),
        placement_ok(v.setup_field, v.placed_ships, len),
        marked(v.setup_field, x1, y1),
        marked(second, x2, y2),
        -1 <= x1 - x2 <= 1,
        -1 <= y1 - y2 <= 1,
    ensures
        !placement_ok(second, v.with_selected_ship(len).placed_ships, len2),
{
    let placed = v.with_selected_ship(len).placed_ships;
    assert(marked(placed, x1, y1));
    assert(near(placed, x2, y2));
}

/// A shot at a cell already shot reports `(false, 0)` and changes nothing,
/// whether or not a ship lies there.
pub proof fn lemma_shot_twice(v: BoardView, x: int, y: int)
    requires
        v.wf(),
        in_board(x, y),
    ensures
        v.after_shot(x, y).shot_result(x, y) == (false, 0u8),
        v.after_shot(x, y).after_shot(x, y) == v.after_shot(x, y),
{
}

/// The board after the opponent shot the first `k` cells of ship `s`, in order.
pub open spec fn after_shots_on(v: BoardView, s: Ship, k: int) -> BoardView
    decreases k,
{
    if k <= 0 {
        v
    } else {
        after_shots_on(v, s, k - 1).after_shot(s.cell_x(k - 1), s.cell_y(k - 1))
    }
}

/// A ship none of whose cells is shot has no cell counted as shot.
proof fn lemma_no_hits(s: Ship, shot: Seq<bool>, n: int)
    requires
        0 <= n <= s.size,
        forall|k: int| 0 <= k < s.size ==> !#[trigger] shot[cell_index(s.cell_x(k), s.cell_y(k))],
    ensures
        s.hits_among(shot, n) == 0,
    decreases n,
{
    if n > 0 {
        lemma_no_hits(s, shot, n - 1);
    }
}

/// After `k` of the shots at ship `i`: the board keeps its invariant, ship
/// `i` lies where it did with `k` hits, and its later cells are unshot.
proof fn lemma_shots_on_ship(v: BoardView, i: int, k: int)
    requires
        v.wf(),
        0 <= i < v.ships.len(),
        0 <= k <= v.ships[i].size,
        forall|m: int|
            0 <= m < v.ships[i].size ==> !#[trigger] v.fields_shot[cell_index(
                v.ships[i].cell_x(m),
                v.ships[i].cell_y(m),
            )],
    ensures
        ({
            let s = v.ships[i];
            let b = after_shots_on(v, s, k);
            &&& b.wf()
            &&& b.ships.len() == v.ships.len()
            &&& b.ships[i] == (Ship { sunken_fields: k as u8, ..s })
            &&& forall|m: int|
                k <= m < s.size ==> !#[trigger] b.fields_shot[cell_index(s.cell_x(m), s.cell_y(m))]
        }),
    decreases k,
{
    let s = v.ships[i];
    if k == 0 {
        lemma_no_hits(s, v.fields_shot, s.size as int);
    } else {
        lemma_shots_on_ship(v, i, k - 1);
        let b = after_shots_on(v, s, k - 1);
        let (x, y) = (s.cell_x(k - 1), s.cell_y(k - 1));
        lemma_cell_of_ship(s, k - 1);
        lemma_shot_keeps_wf(b, x, y);
        lemma_find_ship(b.ships, x, y);
        assert(b.ships[i].covers(x, y));
        let f = find_ship(b.ships, x, y);
        assert(f == Some(i));
        assert forall|m: int| k <= m < s.size implies !#[trigger] after_shots_on(v, s, k).fields_shot[cell_index(s.cell_x(m), s.cell_y(m))] by {
            lemma_cell_of_ship(s, m);
            if cell_index(s.cell_x(m), s.cell_y(m)) == cell_index(x, y) {
                crate::placement::lemma_index_injective(s.cell_x(m), s.cell_y(m), x, y);
            }
        }
    }
}

/// Shooting every cell of a ship, none of them shot before, hits on every
/// shot, and reports the ship's size as sunk on the last shot only.
pub proof fn lemma_sinking_a_ship(v: BoardView, i: int)
    requires
        v.wf(),
        0 <= i < v.ships.len(),
        forall|m: int|
            0 <= m < v.ships[i].size ==> !#[trigger] v.fields_shot[cell_index(
                v.ships[i].cell_x(m),
                v.ships[i].cell_y(m),
            )],
    ensures
        forall|k: int|
            0 <= k < v.ships[i].size ==> #[trigger] after_shots_on(v, v.ships[i], k).shot_result(
                v.ships[i].cell_x(k),
                v.ships[i].cell_y(k),
            ) == (true, if k + 1 == v.ships[i].size {
                v.ships[i].size
            } else {
                0u8
            }),
{
    let s = v.ships[i];
    assert forall|k: int| 0 <= k < s.size implies #[trigger] after_shots_on(v, s, k).shot_result(
        s.cell_x(k),
        s.cell_y(k),
    ) == (true, if k + 1 == s.size {
        s.size
    } else {
        0u8
    }) by {
        lemma_shots_on_ship(v, i, k);
        let b = after_shots_on(v, s, k);
        lemma_cell_of_ship(s, k);
        lemma_find_ship(b.ships, s.cell_x(k), s.cell_y(k));
        assert(b.ships[i].covers(s.cell_x(k), s.cell_y(k)));
    }
}

} // verus!
