//! When a selection of cells is a valid ship, stated over plain sequences.

use vstd::prelude::*;
use crate::grid::{cell_index, count_marked, count_prefix, in_board, marked};
use crate::ships::Ship;

verus! {

/// Row-major position of the first marked cell of `g` at or after `k`, or 100
/// when there is none.
pub open spec fn first_marked_from(g: Seq<bool>, k: int) -> int
    decreases 100 - k,
{
    if k >= 100 {
        100
    } else if g[k] {
        k
    } else {
        first_marked_from(g, k + 1)
    }
}

/// Column of the first marked cell of a selection (0 when nothing is marked).
pub open spec fn start_x(g: Seq<bool>) -> int {
    let f = first_marked_from(g, 0);
    if f < 100 {
        f / 10
    } else {
        0
    }
}

/// Row of the first marked cell of a selection (0 when nothing is marked).
pub open spec fn start_y(g: Seq<bool>) -> int {
    let f = first_marked_from(g, 0);
    if f < 100 {
        f % 10
    } else {
        0
    }
}

/// A selection runs vertically when the cell below its first cell is marked.
pub open spec fn runs_vertically(g: Seq<bool>) -> bool {
    marked(g, start_x(g), start_y(g) + 1)
}

/// The ship of `len` cells that a selection describes: it starts at the first
/// marked cell and runs along the axis of the next one.
pub open spec fn selected_ship(g: Seq<bool>, len: u8) -> Ship {
    Ship {
        size: len,
        x_start_location: start_x(g) as u8,
        y_start_location: start_y(g) as u8,
        vertical: runs_vertically(g),
        sunken_fields: 0,
    }
}

/// The marked cells of `g` are exactly the cells of the ship `s`, which lies on the board.
pub open spec fn marks_exactly(g: Seq<bool>, s: Ship) -> bool {
    &&& s.fits()
    &&& forall|x: int, y: int| in_board(x, y) ==> (#[trigger] g[cell_index(x, y)] <==> s.covers(x, y))
}

/// The selection is a straight, gap-free line of `len` cells on the board.
pub open spec fn is_straight_line(g: Seq<bool>, len: u8) -> bool {
    marks_exactly(g, selected_ship(g, len))
}

/// Some marked cell of `placed` lies in the 3 x 3 neighbourhood of `(x, y)`.
pub open spec fn near(placed: Seq<bool>, x: int, y: int) -> bool {
    exists|a: int, b: int|
        #![trigger marked(placed, a, b)]
        x - 1 <= a <= x + 1 && y - 1 <= b <= y + 1 && marked(placed, a, b)
}

/// Some marked cell of `g` shares a cell with, or borders (diagonals
/// included), a marked cell of `placed`.
pub open spec fn touches(g: Seq<bool>, placed: Seq<bool>) -> bool {
    exists|x: int, y: int| #[trigger] marked(g, x, y) && near(placed, x, y)
}

/// A selection is accepted as a ship of `len` cells: it marks `len` cells,
/// forms a straight line, and keeps clear of every placed ship.
pub open spec fn placement_ok(g: Seq<bool>, placed: Seq<bool>, len: u8) -> bool {
    &&& count_marked(g) == len
    &&& is_straight_line(g, len)
    &&& !touches(g, placed)
}

/// The cells marked in `a` or in `b`.
pub open spec fn union(a: Seq<bool>, b: Seq<bool>) -> Seq<bool> {
    Seq::new(a.len(), |i: int| a[i] || b[i])
}

/// `first_marked_from` finds the first marked position.
pub proof fn lemma_first_marked(g: Seq<bool>, k: int, f: int)
    requires
        g.len() == 100,
        0 <= k <= f <= 100,
        f < 100 ==> g[f],
        forall|q: int| k <= q < f ==> !#[trigger] g[q],
    ensures
        first_marked_from(g, k) == f,
    decreases f - k,
{
    if k < f {
        lemma_first_marked(g, k + 1, f);
    }
}

/// Counting a prefix never gives more than its length, and grows with it.
pub proof fn lemma_count_prefix_mono(g: Seq<bool>, m: int, n: int)
    requires
        0 <= m <= n,
    ensures
        count_prefix(g, m) <= count_prefix(g, n),
        count_prefix(g, n) <= n,
    decreases n,
{
    if n > 0 {
        if m < n {
            lemma_count_prefix_mono(g, m, n - 1);
        } else {
            lemma_count_prefix_mono(g, n - 1, n - 1);
        }
    }
}

/// Cells marked in two grids with no common marked cell add up.
pub proof fn lemma_count_union(a: Seq<bool>, b: Seq<bool>, n: int)
    requires
        a.len() == b.len(),
        0 <= n <= a.len(),
        forall|i: int| 0 <= i < n ==> !(#[trigger] a[i] && b[i]),
    ensures
        count_prefix(union(a, b), n) == count_prefix(a, n) + count_prefix(b, n),
    decreases n,
{
    if n > 0 {
        lemma_count_union(a, b, n - 1);
    }
}


/// The ship of `n` cells starting at `(sx, sy)` along the given axis.
pub open spec fn line(sx: u8, sy: u8, vertical: bool, n: int) -> Ship {
    Ship { size: n as u8, x_start_location: sx, y_start_location: sy, vertical, sunken_fields: 0 }
}

/// Among the cells before row-major position `p`, `g` marks exactly those of `s`.
pub open spec fn agrees_before(g: Seq<bool>, s: Ship, p: int) -> bool {
    forall|x: int, y: int|
        in_board(x, y) && cell_index(x, y) < p ==> (#[trigger] g[cell_index(x, y)] <==> s.covers(
            x,
            y,
        ))
}

/// No cell before position `p` is marked.
pub open spec fn none_before(g: Seq<bool>, p: int) -> bool {
    forall|q: int| 0 <= q < p ==> !#[trigger] g[q]
}

/// What a row-major scan up to position `p` has seen: the first marked cell is
/// `(sx, sy)`, and the marked cells so far form the line of `n` cells from it
/// (horizontal while only one cell has been seen).
pub open spec fn line_so_far(g: Seq<bool>, sx: u8, sy: u8, v: bool, n: int, p: int) -> bool {
    let l = line(sx, sy, v, n);
    &&& in_board(sx as int, sy as int)
    &&& g[cell_index(sx as int, sy as int)]
    &&& none_before(g, cell_index(sx as int, sy as int))
    &&& 1 <= n <= 100
    &&& n == 1 ==> !v
    &&& in_board(l.cell_x(n - 1), l.cell_y(n - 1))
    &&& cell_index(l.cell_x(n - 1), l.cell_y(n - 1)) < p
    &&& agrees_before(g, l, p)
}

/// Cell `(i, j)` is the one that extends the line of `n` cells from
/// `(sx, sy)`: for a single cell, the one right of it or below it.
pub open spec fn continues(sx: u8, sy: u8, v: bool, n: int, i: int, j: int) -> bool {
    if n == 1 {
        (i == sx + 1 && j == sy) || (i == sx && j == sy + 1)
    } else {
        i == line(sx, sy, v, n).cell_x(n) && j == line(sx, sy, v, n).cell_y(n)
    }
}

/// A cell has one row-major position.
pub proof fn lemma_index_injective(x1: int, y1: int, x2: int, y2: int)
    requires
        0 <= y1 < 10,
        0 <= y2 < 10,
        cell_index(x1, y1) == cell_index(x2, y2),
    ensures
        x1 == x2,
        y1 == y2,
{
}

/// The first marked cell of a selection is its start.
pub proof fn lemma_start(g: Seq<bool>, sx: u8, sy: u8)
    requires
        g.len() == 100,
        in_board(sx as int, sy as int),
        g[cell_index(sx as int, sy as int)],
        forall|q: int| 0 <= q < cell_index(sx as int, sy as int) ==> !#[trigger] g[q],
    ensures
        first_marked_from(g, 0) == cell_index(sx as int, sy as int),
        start_x(g) == sx,
        start_y(g) == sy,
{
    lemma_first_marked(g, 0, cell_index(sx as int, sy as int));
    assert((sx * 10 + sy) / 10 == sx as int && (sx * 10 + sy) % 10 == sy as int) by (nonlinear_arith)
        requires
            0 <= sy < 10,
            0 <= sx,
    ;
}

/// Once a line of two or more cells has been seen, the cell below its start
/// is marked exactly when the line runs vertically.
pub proof fn lemma_orientation(g: Seq<bool>, sx: u8, sy: u8, v: bool, n: int, p: int)
    requires
        g.len() == 100,
        2 <= n <= 100,
        in_board(sx as int, sy as int),
        in_board(line(sx, sy, v, n).cell_x(n - 1), line(sx, sy, v, n).cell_y(n - 1)),
        cell_index(line(sx, sy, v, n).cell_x(n - 1), line(sx, sy, v, n).cell_y(n - 1)) < p,
        agrees_before(g, line(sx, sy, v, n), p),
    ensures
        marked(g, sx as int, sy + 1) == v,
{
    let l = line(sx, sy, v, n);
    if v {
        assert(l.covers(sx as int, sy + 1));
        assert(g[cell_index(sx as int, sy + 1)]);
    } else if sy + 1 < 10 {
        assert(!l.covers(sx as int, sy + 1));
        assert(!g[cell_index(sx as int, sy + 1)]);
    }
}


/// A marked cell met in the scan that does not continue the line seen so far
/// shows that the selection is no straight line.
pub proof fn lemma_broken_line(g: Seq<bool>, len: u8, sx: u8, sy: u8, v: bool, n: int, i: int, j: int)
    requires
        g.len() == 100,
        count_marked(g) == len,
        n == count_prefix(g, cell_index(i, j)),
        line_so_far(g, sx, sy, v, n, cell_index(i, j)),
        in_board(i, j),
        g[cell_index(i, j)],
        !continues(sx, sy, v, n, i, j),
    ensures
        !is_straight_line(g, len),
{
    let p = cell_index(i, j);
    let l = line(sx, sy, v, n);
    if is_straight_line(g, len) {
        lemma_start(g, sx, sy);
        let s = selected_ship(g, len);
        lemma_count_prefix_mono(g, p + 1, 100);
        assert(count_prefix(g, p + 1) == n + 1);
        assert(n < len);
        if n >= 2 {
            lemma_count_prefix_mono(g, p, 100);
            lemma_orientation(g, sx, sy, v, n, p);
            assert(s.vertical == v);
        }
        assert(s.covers(i, j));
        crate::ships::lemma_cell_of_ship(s, n);
        let cx = s.cell_x(n);
        let cy = s.cell_y(n);
        assert(g[cell_index(cx, cy)]);
        if cell_index(cx, cy) < p {
            assert(l.covers(cx, cy));
            assert(false);
        } else if cell_index(cx, cy) > p {
            if n >= 2 {
                assert(l.covers(i, j));
            }
            assert(false);
        } else {
            lemma_index_injective(cx, cy, i, j);
            assert(false);
        }
    }
}

/// A scan that reached the last cell without a break has seen a straight line,
/// the one that `selected_ship` describes.
pub proof fn lemma_whole_line(g: Seq<bool>, len: u8, found: bool, sx: u8, sy: u8, v: bool, n: int)
    requires
        g.len() == 100,
        count_marked(g) == len,
        n == count_prefix(g, 100),
        !found ==> n == 0 && sx == 0 && sy == 0 && !v && none_before(g, 100),
        found ==> line_so_far(g, sx, sy, v, n, 100),
    ensures
        is_straight_line(g, len),
        selected_ship(g, len) == line(sx, sy, v, len as int),
{
    lemma_count_prefix_mono(g, 100, 100);
    let s = selected_ship(g, len);
    if !found {
        lemma_first_marked(g, 0, 100);
        assert(!runs_vertically(g));
        assert forall|x: int, y: int| in_board(x, y) implies (#[trigger] g[cell_index(x, y)]
            <==> s.covers(x, y)) by {}
    } else {
        lemma_start(g, sx, sy);
        let l = line(sx, sy, v, n);
        if n >= 2 {
            lemma_orientation(g, sx, sy, v, n, 100);
        } else if sy + 1 < 10 {
            assert(!l.covers(sx as int, sy + 1));
            assert(!g[cell_index(sx as int, sy + 1)]);
        }
        assert(s == l);
    }
}

} // verus!
