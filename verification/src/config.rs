//! The choice between the two connectivity rules.

use crate::fire_spread::{FireSpreadStrategy, MooreNeighborhood, VonNeumannNeighborhood};
use crate::forest::CellState;
use crate::lattice::on_grid;
use crate::model::{touches, ForestView};
use crate::percolation::{
    law_full_forest_burns_down, law_no_gaps_at_full_density, lemma_moore_spreads,
    lemma_von_neumann_spreads, spreads_to_adjacent,
};
use vstd::prelude::*;

verus! {

/// A connectivity rule, chosen when a batch of trials starts.
#[derive(Debug)]
pub enum BurnPattern {
    /// Eight-directional.
    Moore(MooreNeighborhood),
    /// Four-directional.
    VonNeumann(VonNeumannNeighborhood),
}

impl FireSpreadStrategy for BurnPattern {
    open spec fn neighborhood(&self, x: int, y: int, size: int) -> Seq<(usize, usize)> {
        match self {
            BurnPattern::Moore(strategy) => strategy.neighborhood(x, y, size),
            BurnPattern::VonNeumann(strategy) => strategy.neighborhood(x, y, size),
        }
    }

    fn spread(&self, x: usize, y: usize, size: usize) -> (neighbors: Vec<(usize, usize)>) {
        match self {
            BurnPattern::Moore(strategy) => strategy.spread(x, y, size),
            BurnPattern::VonNeumann(strategy) => strategy.spread(x, y, size),
        }
    }
}

/// Under either pattern fire passes from a cell to its neighbours: to the
/// eight around it under `Moore`, to the four at its edges under
/// `VonNeumann`.
pub proof fn lemma_pattern_spreads(pattern: &BurnPattern, size: nat)
    requires
        size <= usize::MAX,
    ensures
        spreads_to_adjacent(pattern, pattern is Moore, size),
{
    lemma_moore_spreads(size);
    lemma_von_neumann_spreads(size);
    match pattern {
        BurnPattern::Moore(strategy) => {
            assert forall|r: (usize, usize), q: (usize, usize)|
                touches(pattern, r, q, size) == touches(
                    &MooreNeighborhood,
                    r,
                    q,
                    size,
                ) by {}
        },
        BurnPattern::VonNeumann(strategy) => {
            assert forall|r: (usize, usize), q: (usize, usize)|
                touches(pattern, r, q, size) == touches(
                    &VonNeumannNeighborhood,
                    r,
                    q,
                    size,
                ) by {}
        },
    }
}

/// At full density a strike on any cell burns down every tree, under either
/// pattern: in a forest with as many trees as its grid has cells, once the
/// fire that a strike on the cell `p` started is out, as many cells have
/// burned down as held a tree, and these are all cells.
pub proof fn law_full_density_burns_completely(
    v: ForestView,
    pattern: &BurnPattern,
    p: (usize, usize),
    k: nat,
)
    requires
        v.wf(),
        v.cells_in(CellState::Tree).len() == v.size * v.size,
        on_grid(p, v.size),
        v.strike(p).after_waves(pattern, k).front.len() == 0,
    ensures
        v.strike(p).after_waves(pattern, k).burned_count == v.strike(p).after_waves(
            pattern,
            k,
        ).total_trees,
        v.strike(p).after_waves(pattern, k).burned_count == v.size * v.size,
        forall|q: (usize, usize)|
            on_grid(q, v.size) ==> #[trigger] v.strike(p).after_waves(pattern, k).state(q)
                == CellState::Burned,
{
    law_no_gaps_at_full_density(v);
    lemma_pattern_spreads(pattern, v.size);
    law_full_forest_burns_down(v, pattern, pattern is Moore, p, k);
}

} // verus!
