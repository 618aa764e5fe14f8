//! Reconstructing a sunk opponent ship from the hits recorded against it.

use vstd::prelude::*;
use crate::grid::marked;

verus! {

/// A direction in which to probe the opponent's grid.
#[derive(Clone, Copy, PartialEq, Eq, Structural, Debug)]
pub enum Compass {
    East,
    South,
    West,
    North,
}

/// Whether a recorded hit lies `k` cells from `(x, y)` in direction `d`;
/// a probe off the board finds no hit.
pub open spec fn probe(g: Seq<bool>, x: int, y: int, d: Compass, k: int) -> bool {
    match d {
        Compass::East => marked(g, x + k, y),
        Compass::South => marked(g, x, y + k),
        Compass::West => marked(g, x - k, y),
        Compass::North => marked(g, x, y - k),
    }
}

/// The first distance from `k` up to 5 at which the probe in direction `d`
/// finds no hit, or 0 when every one of them hits.
pub open spec fn first_gap(g: Seq<bool>, x: int, y: int, d: Compass, k: int) -> int
    decreases 6 - k,
{
    if k > 5 {
        0
    } else if !probe(g, x, y, d, k) {
        k
    } else {
        first_gap(g, x, y, d, k + 1)
    }
}

/// The opponent ship that the hit at `(x, y)` completed, as
/// `(start column, start row, vertical, length)`. A length of 0 means that no
/// ship could be made out: the start is then `(0, 0)` when `(x, y)` holds no
/// hit, and `(x, y)` itself when the hits around it form no ship of 2 to 5
/// cells. The probes look west before north, and east before south.
pub open spec fn inferred_ship(g: Seq<bool>, x: int, y: int) -> (int, int, bool, int) {
    if !marked(g, x, y) {
        (0, 0, false, 0)
    } else if !marked(g, x - 1, y) && !marked(g, x, y - 1) {
        let east = first_gap(g, x, y, Compass::East, 2);
        let south = first_gap(g, x, y, Compass::South, 2);
        if marked(g, x + 1, y) && east != 0 {
            (x, y, false, east)
        } else if marked(g, x, y + 1) && south != 0 {
            (x, y, true, south)
        } else {
            (x, y, false, 0)
        }
    } else if marked(g, x - 1, y) {
        let before = first_gap(g, x, y, Compass::West, 2);
        let after = first_gap(g, x, y, Compass::East, 1);
        if before != 0 && after != 0 && before + after - 1 <= 5 {
            (x - before + 1, y, false, before + after - 1)
        } else {
            (x, y, false, 0)
        }
    } else {
        let before = first_gap(g, x, y, Compass::North, 2);
        let after = first_gap(g, x, y, Compass::South, 1);
        if before != 0 && after != 0 && before + after - 1 <= 5 {
            (x, y - before + 1, true, before + after - 1)
        } else {
            (x, y, false, 0)
        }
    }
}

/// The remaining-fleet counters after an opponent ship of `len` cells sank:
/// the counter for that length drops by one, never below zero; lengths
/// outside 2 to 5 change nothing.
pub open spec fn count_sunk(remaining: Seq<u8>, len: int) -> Seq<u8> {
    if 2 <= len <= 5 {
        let c = remaining[len - 2];
        remaining.update(len - 2, if c > 0 { (c - 1) as u8 } else { 0u8 })
    } else {
        remaining
    }
}

/// Every probe before the first gap hits, and the gap lies within the probed distances.
pub proof fn lemma_first_gap(g: Seq<bool>, x: int, y: int, d: Compass, k: int)
    requires
        1 <= k <= 6,
    ensures
        first_gap(g, x, y, d, k) == 0 || k <= first_gap(g, x, y, d, k) <= 5,
        forall|m: int|
            k <= m < first_gap(g, x, y, d, k) ==> #[trigger] probe(g, x, y, d, m),
    decreases 6 - k,
{
    if k <= 5 && probe(g, x, y, d, k) {
        lemma_first_gap(g, x, y, d, k + 1);
    }
}

} // verus!
