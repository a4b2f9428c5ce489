//! The mathematical model of a forest: what a strike and a wave of fire do
//! to it.

use crate::fire_spread::FireSpreadStrategy;
use crate::forest::CellState;
use crate::lattice::on_grid;
use vstd::prelude::*;

verus! {

/// Whether fire passes from `q` to `p` in one hop under strategy `s`.
pub open spec fn touches<S: FireSpreadStrategy + ?Sized>(
    s: &S,
    q: (usize, usize),
    p: (usize, usize),
    size: nat,
) -> bool {
    s.neighborhood(q.0 as int, q.1 as int, size as int).contains(p)
}

/// Whether a cell that held `before` may hold `after` later on.
pub open spec fn never_reverts(before: CellState, after: CellState) -> bool {
    match before {
        CellState::Empty => after == CellState::Empty,
        CellState::Tree => after != CellState::Empty,
        CellState::Burning => after == CellState::Burning || after == CellState::Burned,
        CellState::Burned => after == CellState::Burned,
    }
}

/// A forest as a mathematical value.
pub struct ForestView {
    /// The side of the grid.
    pub size: nat,
    /// The cells, `cells[x][y]` for the cell `(x, y)`.
    pub cells: Seq<Seq<CellState>>,
    /// The fire front: the burning cells, oldest first.
    pub front: Seq<(usize, usize)>,
    /// How many cells have burned down.
    pub burned_count: nat,
    /// How many cells held a tree at the start.
    pub total_trees: nat,
}

impl ForestView {
    /// What the cell `p` holds.
    pub open spec fn state(self, p: (usize, usize)) -> CellState {
        self.cells[p.0 as int][p.1 as int]
    }

    /// Whether the cells form a square of side `size`.
    pub open spec fn square(self) -> bool {
        &&& self.cells.len() == self.size
        &&& forall|x: int| 0 <= x < self.size ==> (#[trigger] self.cells[x]).len() == self.size
    }

    /// The cells of the grid that hold `state`.
    pub open spec fn cells_in(self, state: CellState) -> Set<(usize, usize)> {
        Set::new(|p: (usize, usize)| on_grid(p, self.size) && self.state(p) == state)
    }

    /// The cells of the grid that hold or held a tree.
    pub open spec fn fuel(self) -> Set<(usize, usize)> {
        Set::new(|p: (usize, usize)| on_grid(p, self.size) && self.state(p) != CellState::Empty)
    }

    /// Whether nothing is burning.
    pub open spec fn quiescent(self) -> bool {
        forall|p: (usize, usize)|
            on_grid(p, self.size) ==> #[trigger] self.state(p) != CellState::Burning
    }

    /// The invariant of a forest: the grid is square, the fire front holds
    /// the burning cells, each once, and the counters count what they name.
    pub open spec fn wf(self) -> bool {
        &&& self.size <= usize::MAX
        &&& self.square()
        &&& self.front.no_duplicates()
        &&& forall|i: int|
            0 <= i < self.front.len() ==> on_grid(#[trigger] self.front[i], self.size)
                && self.state(self.front[i]) == CellState::Burning
        &&& forall|p: (usize, usize)|
            on_grid(p, self.size) && #[trigger] self.state(p) == CellState::Burning
                ==> self.front.contains(p)
        &&& self.burned_count == self.cells_in(CellState::Burned).len()
        &&& self.total_trees == self.fuel().len()
    }

    /// The forest with `state` written to the cell `p`.
    pub open spec fn with_state(self, p: (usize, usize), state: CellState) -> ForestView {
        ForestView {
            cells: self.cells.update(
                p.0 as int,
                self.cells[p.0 as int].update(p.1 as int, state),
            ),
            ..self
        }
    }

    /// The forest after lightning strikes the cell `p`: a tree there starts
    /// to burn and joins the fire front, anything else is left as it is.
    pub open spec fn strike(self, p: (usize, usize)) -> ForestView {
        if self.state(p) == CellState::Tree {
            ForestView { front: self.front.push(p), ..self.with_state(p, CellState::Burning) }
        } else {
            self
        }
    }

    /// The neighbours of the first `k` cells of the fire front, in the order
    /// in which a wave visits them.
    pub open spec fn sparks<S: FireSpreadStrategy + ?Sized>(self, s: &S, k: nat) -> Seq<
        (usize, usize),
    >
        decreases k,
    {
        if k == 0 {
            Seq::empty()
        } else {
            self.sparks(s, (k - 1) as nat) + s.neighborhood(
                self.front[k - 1].0 as int,
                self.front[k - 1].1 as int,
                self.size as int,
            )
        }
    }

    /// The trees of the grid among `sparks`, each once, in the order of their
    /// first occurrence: the cells that the sparks set alight.
    pub open spec fn kindled(self, sparks: Seq<(usize, usize)>) -> Seq<(usize, usize)>
        decreases sparks.len(),
    {
        if sparks.len() == 0 {
            Seq::empty()
        } else {
            let earlier = self.kindled(sparks.drop_last());
            let p = sparks.last();
            if on_grid(p, self.size) && self.state(p) == CellState::Tree && !earlier.contains(p) {
                earlier.push(p)
            } else {
                earlier
            }
        }
    }

    /// Whether the cell `p` holds a tree next to a burning cell.
    pub open spec fn catches_fire<S: FireSpreadStrategy + ?Sized>(
        self,
        s: &S,
        p: (usize, usize),
    ) -> bool {
        &&& self.state(p) == CellState::Tree
        &&& exists|q: (usize, usize)|
            on_grid(q, self.size) && self.state(q) == CellState::Burning && #[trigger] touches(
                s,
                q,
                p,
                self.size,
            )
    }

    /// What the cell `p` holds after one wave.
    pub open spec fn wave_state<S: FireSpreadStrategy + ?Sized>(
        self,
        s: &S,
        p: (usize, usize),
    ) -> CellState {
        match self.state(p) {
            CellState::Burning => CellState::Burned,
            CellState::Tree => if self.catches_fire(s, p) {
                CellState::Burning
            } else {
                CellState::Tree
            },
            CellState::Empty => CellState::Empty,
            CellState::Burned => CellState::Burned,
        }
    }

    /// The forest after one wave: every burning cell has burned down, every
    /// tree next to one of them burns, and these trees make up the new fire
    /// front, in the order in which the old front reached them.
    pub open spec fn wave<S: FireSpreadStrategy + ?Sized>(self, s: &S) -> ForestView {
        ForestView {
            size: self.size,
            cells: Seq::new(
                self.size,
                |x: int| Seq::new(self.size, |y: int| self.wave_state(s, (x as usize, y as usize))),
            ),
            front: self.kindled(self.sparks(s, self.front.len())),
            burned_count: self.burned_count + self.front.len(),
            total_trees: self.total_trees,
        }
    }

    /// The forest after `k` waves.
    pub open spec fn after_waves<S: FireSpreadStrategy + ?Sized>(self, s: &S, k: nat) -> ForestView
        decreases k,
    {
        if k == 0 {
            self
        } else {
            self.after_waves(s, (k - 1) as nat).wave(s)
        }
    }
}

} // verus!
