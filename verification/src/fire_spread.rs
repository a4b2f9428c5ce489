//! Neighbourhood strategies: which cells a burning cell can set alight.

use vstd::prelude::*;
use vstd::seq_lib::lemma_seq_concat_contains_all_elements;

verus! {

/// Whether `(cx, cy)` names a cell of a grid of side `size`.
pub open spec fn in_grid(cx: int, cy: int, size: int) -> bool {
    0 <= cx < size && 0 <= cy < size
}

/// The cell at offset `(dx, dy)` from `(x, y)`, if it lies on the grid:
/// a sequence of one cell, or of none.
pub open spec fn candidate(x: int, y: int, dx: int, dy: int, size: int) -> Seq<(usize, usize)> {
    if in_grid(x + dx, y + dy, size) {
        seq![((x + dx) as usize, (y + dy) as usize)]
    } else {
        Seq::empty()
    }
}

/// The in-grid cells among the eight that surround `(x, y)`, in the order in
/// which they are enumerated: by the offset of the first coordinate, then by
/// that of the second.
pub open spec fn moore_neighbors(x: int, y: int, size: int) -> Seq<(usize, usize)> {
    candidate(x, y, -1, -1, size) + candidate(x, y, -1, 0, size) + candidate(x, y, -1, 1, size)
        + candidate(x, y, 0, -1, size) + candidate(x, y, 0, 1, size) + candidate(
        x,
        y,
        1,
        -1,
        size,
    ) + candidate(x, y, 1, 0, size) + candidate(x, y, 1, 1, size)
}

/// The in-grid cells among the four that share an edge with `(x, y)`, in the
/// order in which they are enumerated.
pub open spec fn von_neumann_neighbors(x: int, y: int, size: int) -> Seq<(usize, usize)> {
    candidate(x, y, -1, 0, size) + candidate(x, y, 1, 0, size) + candidate(x, y, 0, -1, size)
        + candidate(x, y, 0, 1, size)
}

/// The boundary clamp that every strategy shares.  The candidate
/// `(x + dx, y + dy)` is computed in a signed domain wide enough for any
/// coordinate, and is appended to `neighbors` only if it lies on the grid.
pub fn check_boundaries(
    x: usize,
    y: usize,
    dx: i32,
    dy: i32,
    size: usize,
    neighbors: &mut Vec<(usize, usize)>,
)
    ensures
        final(neighbors)@ == old(neighbors)@ + candidate(
            x as int,
            y as int,
            dx as int,
            dy as int,
            size as int,
        ),
{
    let nx: i128 = x as i128 + dx as i128;
    let ny: i128 = y as i128 + dy as i128;
    if nx >= 0 && ny >= 0 && nx < size as i128 && ny < size as i128 {
        neighbors.push((nx as usize, ny as usize));
    }
}

/// A connectivity rule: the cells that fire can reach from a cell in one hop.
pub trait FireSpreadStrategy {
    /// The neighbours of `(x, y)` on a grid of side `size`, in enumeration order.
    spec fn neighborhood(&self, x: int, y: int, size: int) -> Seq<(usize, usize)>;

    /// Enumerates the neighbours of `(x, y)`.
    fn spread(&self, x: usize, y: usize, size: usize) -> (neighbors: Vec<(usize, usize)>)
        ensures
            neighbors@ == self.neighborhood(x as int, y as int, size as int),
    ;
}

/// Eight-directional connectivity.
#[derive(Debug)]
pub struct MooreNeighborhood;

/// Four-directional connectivity.
#[derive(Debug)]
pub struct VonNeumannNeighborhood;

impl FireSpreadStrategy for MooreNeighborhood {
    open spec fn neighborhood(&self, x: int, y: int, size: int) -> Seq<(usize, usize)> {
        moore_neighbors(x, y, size)
    }

    fn spread(&self, x: usize, y: usize, size: usize) -> (neighbors: Vec<(usize, usize)>) {
        let mut neighbors: Vec<(usize, usize)> = Vec::new();
        check_boundaries(x, y, -1, -1, size, &mut neighbors);
        check_boundaries(x, y, -1, 0, size, &mut neighbors);
        check_boundaries(x, y, -1, 1, size, &mut neighbors);
        check_boundaries(x, y, 0, -1, size, &mut neighbors);
        check_boundaries(x, y, 0, 1, size, &mut neighbors);
        check_boundaries(x, y, 1, -1, size, &mut neighbors);
        check_boundaries(x, y, 1, 0, size, &mut neighbors);
        check_boundaries(x, y, 1, 1, size, &mut neighbors);
        neighbors
    }
}

impl FireSpreadStrategy for VonNeumannNeighborhood {
    open spec fn neighborhood(&self, x: int, y: int, size: int) -> Seq<(usize, usize)> {
        von_neumann_neighbors(x, y, size)
    }

    fn spread(&self, x: usize, y: usize, size: usize) -> (neighbors: Vec<(usize, usize)>) {
        let mut neighbors: Vec<(usize, usize)> = Vec::new();
        check_boundaries(x, y, -1, 0, size, &mut neighbors);
        check_boundaries(x, y, 1, 0, size, &mut neighbors);
        check_boundaries(x, y, 0, -1, size, &mut neighbors);
        check_boundaries(x, y, 0, 1, size, &mut neighbors);
        neighbors
    }
}

/// The one cell that a candidate can hold.
pub proof fn lemma_candidate(x: int, y: int, dx: int, dy: int, size: int, p: (usize, usize))
    requires
        size <= usize::MAX,
    ensures
        candidate(x, y, dx, dy, size).contains(p) <==> in_grid(x + dx, y + dy, size) && p.0 == x
            + dx && p.1 == y + dy,
{
    if in_grid(x + dx, y + dy, size) {
        let only = ((x + dx) as usize, (y + dy) as usize);
        assert(candidate(x, y, dx, dy, size)[0] == only);
    }
}

/// Under eight-directional connectivity the neighbours of `(x, y)` are the
/// cells of the grid, other than `(x, y)`, that are one step away at most
/// along each axis.
pub proof fn lemma_moore_neighbors(x: int, y: int, size: int, p: (usize, usize))
    requires
        size <= usize::MAX,
    ensures
        moore_neighbors(x, y, size).contains(p) <==> in_grid(p.0 as int, p.1 as int, size) && (p.0
            != x || p.1 != y) && -1 <= p.0 - x <= 1 && -1 <= p.1 - y <= 1,
{
    broadcast use lemma_seq_concat_contains_all_elements;

    lemma_candidate(x, y, -1, -1, size, p);
    lemma_candidate(x, y, -1, 0, size, p);
    lemma_candidate(x, y, -1, 1, size, p);
    lemma_candidate(x, y, 0, -1, size, p);
    lemma_candidate(x, y, 0, 1, size, p);
    lemma_candidate(x, y, 1, -1, size, p);
    lemma_candidate(x, y, 1, 0, size, p);
    lemma_candidate(x, y, 1, 1, size, p);
}

/// Under four-directional connectivity the neighbours of `(x, y)` are the
/// cells of the grid that are one step away along one axis and none along
/// the other.
pub proof fn lemma_von_neumann_neighbors(x: int, y: int, size: int, p: (usize, usize))
    requires
        size <= usize::MAX,
    ensures
        von_neumann_neighbors(x, y, size).contains(p) <==> in_grid(p.0 as int, p.1 as int, size)
            && ((p.1 == y && (p.0 - x == 1 || p.0 - x == -1)) || (p.0 == x && (p.1 - y == 1 || p.1
            - y == -1))),
{
    broadcast use lemma_seq_concat_contains_all_elements;

    lemma_candidate(x, y, -1, 0, size, p);
    lemma_candidate(x, y, 1, 0, size, p);
    lemma_candidate(x, y, 0, -1, size, p);
    lemma_candidate(x, y, 0, 1, size, p);
}

} // verus!
