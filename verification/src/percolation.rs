//! Full percolation: in a forest without gaps the fire reaches every tree.
//!
//! From the cell that was struck the fire moves outwards ring by ring: after
//! `k` waves the cells nearer than `k` hops have burned down, those at `k`
//! hops are burning, and those further away still stand.

use crate::fire_spread::{
    lemma_moore_neighbors, lemma_von_neumann_neighbors, FireSpreadStrategy, MooreNeighborhood,
    VonNeumannNeighborhood,
};
use crate::forest::CellState;
use crate::lattice::{all_cells, lemma_all_cells, lemma_cells_bounded, on_grid};
use crate::laws::{
    law_burned_at_most_total, law_front_holds_the_burning, law_strike_keeps_invariant,
    law_wave_keeps_invariant, law_waves_keep_invariant, lemma_with_state,
};
use crate::model::{touches, ForestView};
use vstd::prelude::*;
use vstd::set_lib::lemma_subset_equality;

verus! {

/// How far apart two coordinates are.
pub open spec fn gap(a: usize, b: usize) -> nat {
    if a <= b {
        (b - a) as nat
    } else {
        (a - b) as nat
    }
}

/// Whether `r` and `q` are neighbours: among the eight cells around each
/// other, or, with `eight` false, among the four that share an edge.
pub open spec fn adjacent(eight: bool, r: (usize, usize), q: (usize, usize)) -> bool {
    if eight {
        r != q && gap(r.0, q.0) <= 1 && gap(r.1, q.1) <= 1
    } else {
        gap(r.0, q.0) + gap(r.1, q.1) == 1
    }
}

/// The number of hops from `p` to `q` on a grid without gaps.
pub open spec fn hops(eight: bool, p: (usize, usize), q: (usize, usize)) -> nat {
    if eight {
        if gap(p.0, q.0) >= gap(p.1, q.1) {
            gap(p.0, q.0)
        } else {
            gap(p.1, q.1)
        }
    } else {
        gap(p.0, q.0) + gap(p.1, q.1)
    }
}

/// Whether fire passes under `s`, between cells of the grid, exactly from a
/// cell to its neighbours.
pub open spec fn spreads_to_adjacent<S: FireSpreadStrategy + ?Sized>(
    s: &S,
    eight: bool,
    size: nat,
) -> bool {
    forall|r: (usize, usize), q: (usize, usize)|
        on_grid(r, size) && on_grid(q, size) ==> (#[trigger] touches(s, r, q, size) <==> adjacent(
            eight,
            r,
            q,
        ))
}

/// What a cell at `distance` hops from the strike holds after `waves` waves.
pub open spec fn ring_state(distance: nat, waves: nat) -> CellState {
    if distance < waves {
        CellState::Burned
    } else if distance == waves {
        CellState::Burning
    } else {
        CellState::Tree
    }
}

/// The coordinate next to `a` on the way to `b`.
pub open spec fn step(a: usize, b: usize) -> usize {
    if a < b {
        (a + 1) as usize
    } else if a > b {
        (a - 1) as usize
    } else {
        a
    }
}

/// The neighbour of `q` that is one hop nearer to `p`.
pub open spec fn toward(eight: bool, p: (usize, usize), q: (usize, usize)) -> (usize, usize) {
    if eight {
        (step(q.0, p.0), step(q.1, p.1))
    } else if q.0 != p.0 {
        (step(q.0, p.0), q.1)
    } else {
        (q.0, step(q.1, p.1))
    }
}

/// A cell other than `p` has a neighbour on the grid one hop nearer to `p`.
pub proof fn lemma_toward(eight: bool, p: (usize, usize), q: (usize, usize), size: nat)
    requires
        on_grid(p, size),
        on_grid(q, size),
        hops(eight, p, q) > 0,
    ensures
        on_grid(toward(eight, p, q), size),
        adjacent(eight, toward(eight, p, q), q),
        hops(eight, p, toward(eight, p, q)) + 1 == hops(eight, p, q),
{
}

/// Neighbours differ by one hop at most in their distance from `p`.
pub proof fn lemma_adjacent_hops(
    eight: bool,
    p: (usize, usize),
    r: (usize, usize),
    q: (usize, usize),
)
    requires
        adjacent(eight, r, q),
    ensures
        hops(eight, p, q) <= hops(eight, p, r) + 1,
{
}

/// The fire moves outwards ring by ring.
pub proof fn lemma_rings<S: FireSpreadStrategy + ?Sized>(
    u: ForestView,
    s: &S,
    eight: bool,
    p: (usize, usize),
    k: nat,
)
    requires
        u.wf(),
        on_grid(p, u.size),
        spreads_to_adjacent(s, eight, u.size),
        forall|q: (usize, usize)|
            on_grid(q, u.size) ==> #[trigger] u.state(q) == ring_state(hops(eight, p, q), 0),
    ensures
        forall|q: (usize, usize)|
            on_grid(q, u.size) ==> #[trigger] u.after_waves(s, k).state(q) == ring_state(
                hops(eight, p, q),
                k,
            ),
    decreases k,
{
    if k > 0 {
        let shorter = (k - 1) as nat;
        let w = u.after_waves(s, shorter);
        lemma_rings(u, s, eight, p, shorter);
        law_waves_keep_invariant(u, s, shorter);
        law_wave_keeps_invariant(w, s);
        assert forall|q: (usize, usize)| on_grid(q, u.size) implies #[trigger] u.after_waves(
            s,
            k,
        ).state(q) == ring_state(hops(eight, p, q), k) by {
            let d = hops(eight, p, q);
            assert(w.wave(s).state(q) == w.wave_state(s, q));
            assert(w.state(q) == ring_state(d, shorter));
            if d == k {
                lemma_toward(eight, p, q, u.size);
                let r = toward(eight, p, q);
                assert(w.state(r) == ring_state(hops(eight, p, r), shorter));
                assert(touches(s, r, q, u.size));
                assert(w.catches_fire(s, q));
            } else if d > k {
                if w.catches_fire(s, q) {
                    let r = choose|r: (usize, usize)|
                        on_grid(r, w.size) && w.state(r) == CellState::Burning && #[trigger] touches(
                            s,
                            r,
                            q,
                            w.size,
                        );
                    assert(w.state(r) == ring_state(hops(eight, p, r), shorter));
                    lemma_adjacent_hops(eight, p, r, q);
                }
            }
        }
    }
}

/// Between `p` and a cell at `d` hops there is a cell at any smaller number
/// of hops.
pub proof fn lemma_descend(
    eight: bool,
    p: (usize, usize),
    q: (usize, usize),
    size: nat,
    k: nat,
) -> (at: (usize, usize))
    requires
        on_grid(p, size),
        on_grid(q, size),
        hops(eight, p, q) >= k,
    ensures
        on_grid(at, size),
        hops(eight, p, at) == k,
    decreases hops(eight, p, q),
{
    if hops(eight, p, q) == k {
        q
    } else {
        lemma_toward(eight, p, q, size);
        lemma_descend(eight, p, toward(eight, p, q), size, k)
    }
}

/// In a forest in which every cell holds a tree, under a strategy by which
/// fire passes from a cell to its neighbours, a strike on any cell burns
/// down every tree: once the fire is out, all cells have burned.
pub proof fn law_full_forest_burns_down<S: FireSpreadStrategy + ?Sized>(
    v: ForestView,
    s: &S,
    eight: bool,
    p: (usize, usize),
    k: nat,
)
    requires
        v.wf(),
        on_grid(p, v.size),
        spreads_to_adjacent(s, eight, v.size),
        forall|q: (usize, usize)| on_grid(q, v.size) ==> #[trigger] v.state(q) == CellState::Tree,
        v.strike(p).after_waves(s, k).front.len() == 0,
    ensures
        forall|q: (usize, usize)|
            on_grid(q, v.size) ==> #[trigger] v.strike(p).after_waves(s, k).state(q)
                == CellState::Burned,
        v.strike(p).after_waves(s, k).burned_count == v.total_trees,
        v.strike(p).after_waves(s, k).total_trees == v.total_trees,
        v.total_trees == v.size * v.size,
{
    let u = v.strike(p);
    let w = u.after_waves(s, k);
    law_strike_keeps_invariant(v, p);
    lemma_with_state(v, p, CellState::Burning);
    assert forall|q: (usize, usize)| on_grid(q, u.size) implies #[trigger] u.state(q)
        == ring_state(hops(eight, p, q), 0) by {
        if q != p {
            assert(v.with_state(p, CellState::Burning).state(q) == v.state(q));
        }
    }
    lemma_rings(u, s, eight, p, k);
    law_waves_keep_invariant(u, s, k);
    law_front_holds_the_burning(w);
    assert forall|q: (usize, usize)| on_grid(q, v.size) implies #[trigger] w.state(q)
        == CellState::Burned by {
        assert(w.state(q) == ring_state(hops(eight, p, q), k));
        if hops(eight, p, q) >= k {
            let at = lemma_descend(eight, p, q, v.size, k);
            assert(w.state(at) == ring_state(hops(eight, p, at), k));
        }
    }
    law_burned_at_most_total(w);
    lemma_all_cells(v.size);
    assert(v.fuel() =~= all_cells(v.size));
}

/// Under eight-directional connectivity fire passes from a cell to its eight
/// neighbours.
pub proof fn lemma_moore_spreads(size: nat)
    requires
        size <= usize::MAX,
    ensures
        spreads_to_adjacent(&MooreNeighborhood, true, size),
{
    assert forall|r: (usize, usize), q: (usize, usize)|
        on_grid(r, size) && on_grid(q, size) implies (#[trigger] touches(
        &MooreNeighborhood,
        r,
        q,
        size,
    ) <==> adjacent(true, r, q)) by {
        lemma_moore_neighbors(r.0 as int, r.1 as int, size as int, q);
    }
}

/// Under four-directional connectivity fire passes from a cell to the four
/// cells that share an edge with it.
pub proof fn lemma_von_neumann_spreads(size: nat)
    requires
        size <= usize::MAX,
    ensures
        spreads_to_adjacent(&VonNeumannNeighborhood, false, size),
{
    assert forall|r: (usize, usize), q: (usize, usize)|
        on_grid(r, size) && on_grid(q, size) implies (#[trigger] touches(
        &VonNeumannNeighborhood,
        r,
        q,
        size,
    ) <==> adjacent(false, r, q)) by {
        lemma_von_neumann_neighbors(r.0 as int, r.1 as int, size as int, q);
    }
}

/// A forest with as many trees as its grid has cells holds a tree on every
/// cell.
pub proof fn law_no_gaps_at_full_density(v: ForestView)
    requires
        v.size <= usize::MAX,
        v.cells_in(CellState::Tree).len() == v.size * v.size,
    ensures
        forall|q: (usize, usize)| on_grid(q, v.size) ==> #[trigger] v.state(q) == CellState::Tree,
{
    let trees = v.cells_in(CellState::Tree);
    lemma_all_cells(v.size);
    lemma_cells_bounded(trees, v.size);
    assert(trees.subset_of(all_cells(v.size)));
    lemma_subset_equality(trees, all_cells(v.size));
    assert forall|q: (usize, usize)| on_grid(q, v.size) implies #[trigger] v.state(q)
        == CellState::Tree by {
        assert(all_cells(v.size).contains(q));
        assert(trees.contains(q));
    }
}

} // verus!
