//! The forest: a square grid of cells, the fire front, and the counters.

use crate::fire_spread::FireSpreadStrategy;
use crate::lattice::{
    cells_in_order, lemma_cells_in_order, lemma_place_in_order, lemma_reordered, on_grid,
};
use crate::laws::{
    law_idle_wave, law_strike_keeps_invariant, law_wave_keeps_invariant, lemma_counts,
    lemma_kindled, lemma_seeded, lemma_sparks, lemma_with_state,
};
use crate::model::{touches, ForestView};
use crate::random::{random_below, shuffle_cells, thread_rng};
use crate::ratio::{round_half_up, Ratio};
use std::collections::VecDeque;
use vstd::prelude::*;
use vstd::seq_lib::lemma_seq_contains_after_push;

verus! {

/// What a cell of the grid holds.  A cell moves along
/// `Tree -> Burning -> Burned` and never back; empty ground stays empty.
#[derive(Clone, Copy, Debug, PartialEq, Eq, Structural)]
pub enum CellState {
    Empty,
    Tree,
    Burning,
    Burned,
}

/// What a cell holds in the middle of a wave: `before` is what it held when
/// the wave began, `passed` whether the wave has burned it down, and
/// `sparked` whether a spark has reached it.
spec fn mid_wave(before: CellState, passed: bool, sparked: bool) -> CellState {
    match before {
        CellState::Burning => if passed {
            CellState::Burned
        } else {
            CellState::Burning
        },
        CellState::Tree => if sparked {
            CellState::Burning
        } else {
            CellState::Tree
        },
        CellState::Empty => CellState::Empty,
        CellState::Burned => CellState::Burned,
    }
}

/// A grid of side `size` with nothing on it.
fn empty_grid(size: usize) -> (grid: Vec<Vec<CellState>>)
    ensures
        grid@.len() == size,
        forall|x: int| 0 <= x < size ==> (#[trigger] grid@[x])@.len() == size,
        forall|x: int, y: int|
            0 <= x < size && 0 <= y < size ==> #[trigger] grid@[x]@[y] == CellState::Empty,
{
    let mut grid: Vec<Vec<CellState>> = Vec::new();
    let mut x: usize = 0;
    while x < size
        invariant
            x <= size,
            grid@.len() == x,
            forall|i: int| 0 <= i < x ==> (#[trigger] grid@[i])@.len() == size,
            forall|i: int, y: int|
                0 <= i < x && 0 <= y < size ==> #[trigger] grid@[i]@[y] == CellState::Empty,
        decreases size - x,
    {
        let mut row: Vec<CellState> = Vec::new();
        let mut y: usize = 0;
        while y < size
            invariant
                y <= size,
                row@.len() == y,
                forall|j: int| 0 <= j < y ==> row@[j] == CellState::Empty,
            decreases size - y,
        {
            row.push(CellState::Empty);
            y += 1;
        }
        grid.push(row);
        x += 1;
    }
    grid
}

/// The cells of a grid of side `size`, ordered by their first coordinate and
/// then by their second.
fn list_cells(size: usize) -> (cells: Vec<(usize, usize)>)
    requires
        size * size <= usize::MAX,
    ensures
        cells@ == cells_in_order(size as nat),
{
    let mut cells: Vec<(usize, usize)> = Vec::new();
    let mut x: usize = 0;
    while x < size
        invariant
            x <= size,
            size * size <= usize::MAX,
            cells@.len() == x * size,
            forall|k: int| 0 <= k < cells@.len() ==> cells@[k] == cells_in_order(size as nat)[k],
        decreases size - x,
    {
        let mut y: usize = 0;
        while y < size
            invariant
                x < size,
                y <= size,
                size * size <= usize::MAX,
                cells@.len() == x * size + y,
                forall|k: int|
                    0 <= k < cells@.len() ==> cells@[k] == cells_in_order(size as nat)[k],
            decreases size - y,
        {
            proof {
                lemma_place_in_order(x as nat, y as nat, size as nat);
            }
            cells.push((x, y));
            y += 1;
        }
        proof {
            assert((x + 1) * size == x * size + size) by (nonlinear_arith);
        }
        x += 1;
    }
    proof {
        assert(cells@ =~= cells_in_order(size as nat));
    }
    cells
}

/// One step of reservoir sampling: the candidate replaces the current
/// choice when the draw is zero, and the current choice stays otherwise.
pub fn reservoir_keep(
    current: Option<(usize, usize)>,
    candidate: (usize, usize),
    draw: usize,
) -> (kept: Option<(usize, usize)>)
    ensures
        kept == (if draw == 0 {
            Some(candidate)
        } else {
            current
        }),
{
    if draw == 0 {
        Some(candidate)
    } else {
        current
    }
}

/// A forest on a grid of side `size`.
pub struct Forest {
    size: usize,
    grid: Vec<Vec<CellState>>,
    fire_front: VecDeque<(usize, usize)>,
    burned_count: usize,
    total_trees: usize,
}

impl View for Forest {
    type V = ForestView;

    closed spec fn view(&self) -> ForestView {
        ForestView {
            size: self.size as nat,
            cells: Seq::new(self.grid@.len(), |x: int| self.grid@[x]@),
            front: self.fire_front@,
            burned_count: self.burned_count as nat,
            total_trees: self.total_trees as nat,
        }
    }
}

impl Forest {
    /// The invariant of a forest, and that the number of its cells fits the
    /// machine's word.
    pub open spec fn wf(&self) -> bool {
        self@.wf() && self@.size * self@.size <= usize::MAX
    }

    /// Writes `state` to the cell `(x, y)`.
    fn set_state(&mut self, x: usize, y: usize, state: CellState)
        requires
            old(self)@.square(),
            on_grid((x, y), old(self)@.size),
        ensures
            final(self)@.square(),
            final(self)@ == old(self)@.with_state((x, y), state),
    {
        proof {
            assert(self@.cells[x as int].len() == self@.size);
        }
        self.grid[x][y] = state;
        proof {
            let target = old(self)@.with_state((x, y), state).cells;
            assert(self@.cells =~= target) by {
                assert forall|i: int| 0 <= i < target.len() implies self@.cells[i] == target[i] by {
                    if i != x {
                        assert(self.grid@[i] == old(self).grid@[i]);
                    }
                }
            }
            assert(self@.square()) by {
                assert forall|i: int| 0 <= i < self@.size implies (#[trigger] self@.cells[i]).len()
                    == self@.size by {
                    assert(old(self)@.cells[i].len() == self@.size);
                }
            }
        }
    }

    /// Reads the cell `(x, y)`.
    fn state_at(&self, x: usize, y: usize) -> (state: CellState)
        requires
            self@.square(),
            on_grid((x, y), self@.size),
        ensures
            state == self@.state((x, y)),
    {
        proof {
            assert(self@.cells[x as int].len() == self@.size);
        }
        self.grid[x][y]
    }

    /// A forest on a grid of side `size` with a tree on each of the first
    /// `trees` cells of `order` and on no other cell.  Nothing burns and
    /// nothing has burned.
    pub fn with_trees_at(size: usize, order: &Vec<(usize, usize)>, trees: usize) -> (forest: Forest)
        requires
            size * size <= usize::MAX,
            trees <= order@.len(),
            order@.take(trees as int).no_duplicates(),
            forall|k: int| 0 <= k < trees ==> on_grid(#[trigger] order@[k], size as nat),
        ensures
            forest.wf(),
            forest@.size == size,
            forest@.front == Seq::<(usize, usize)>::empty(),
            forest@.burned_count == 0,
            forest@.total_trees == trees,
            forest@.cells_in(CellState::Tree) == order@.take(trees as int).to_set(),
            forest@.cells_in(CellState::Tree).len() == trees,
            forall|p: (usize, usize)|
                on_grid(p, size as nat) ==> #[trigger] forest@.state(p) == (if order@.take(
                    trees as int,
                ).contains(p) {
                    CellState::Tree
                } else {
                    CellState::Empty
                }),
    {
        let mut forest = Forest {
            size,
            grid: empty_grid(size),
            fire_front: VecDeque::new(),
            burned_count: 0,
            total_trees: trees,
        };
        proof {
            assert(order@.take(0) =~= Seq::empty());
        }
        let mut i: usize = 0;
        while i < trees
            invariant
                i <= trees <= order@.len(),
                forest@.square(),
                forest@.size == size,
                forest@.front == Seq::<(usize, usize)>::empty(),
                forest@.burned_count == 0,
                forest@.total_trees == trees,
                forall|k: int| 0 <= k < trees ==> on_grid(#[trigger] order@[k], size as nat),
                forall|p: (usize, usize)|
                    on_grid(p, size as nat) ==> #[trigger] forest@.state(p) == (if order@.take(
                        i as int,
                    ).contains(p) {
                        CellState::Tree
                    } else {
                        CellState::Empty
                    }),
            decreases trees - i,
        {
            let ghost entering = forest@;
            let (x, y) = order[i];
            forest.set_state(x, y, CellState::Tree);
            proof {
                lemma_with_state(entering, (x, y), CellState::Tree);
                assert(order@.take(i + 1) =~= order@.take(i as int).push((x, y)));
                assert forall|p: (usize, usize)| on_grid(p, size as nat) implies #[trigger]
                    forest@.state(p) == (if order@.take(i + 1).contains(p) {
                    CellState::Tree
                } else {
                    CellState::Empty
                }) by {
                    lemma_seq_contains_after_push(order@.take(i as int), (x, y), p);
                    if p != (x, y) {
                        assert(forest@.state(p) == entering.state(p));
                    }
                }
            }
            i += 1;
        }
        proof {
            lemma_seeded(forest@, order@.take(trees as int));
        }
        forest
    }

    /// A fresh forest on a grid of side `size`.  The share `density` of its
    /// cells, rounded to the nearest count, holds a tree; which cells these
    /// are is left to chance.  All other cells are empty, nothing burns and
    /// nothing has burned.
    pub fn new(size: usize, density: Ratio) -> (forest: Forest)
        requires
            size * size <= usize::MAX,
            density.is_share(),
        ensures
            forest.wf(),
            forest@.size == size,
            forest@.front == Seq::<(usize, usize)>::empty(),
            forest@.burned_count == 0,
            forest@.total_trees == round_half_up(
                density.numerator as nat * (size as nat * size as nat),
                density.denominator as nat,
            ),
            forest@.cells_in(CellState::Tree).len() == forest@.total_trees,
            forall|p: (usize, usize)|
                on_grid(p, size as nat) ==> #[trigger] forest@.state(p) == CellState::Tree
                    || forest@.state(p) == CellState::Empty,
    {
        let total_cells = size * size;
        let target_trees = density.share_of(total_cells as u64) as usize;
        let mut indices = list_cells(size);
        let mut rng = thread_rng();
        shuffle_cells(&mut indices, &mut rng);
        proof {
            lemma_cells_in_order(size as nat);
            lemma_reordered(cells_in_order(size as nat), indices@);
            assert forall|k: int| 0 <= k < target_trees implies on_grid(
                #[trigger] indices@[k],
                size as nat,
            ) by {
                assert(indices@.contains(indices@[k]));
                assert(cells_in_order(size as nat).contains(indices@[k]));
            }
        }
        Forest::with_trees_at(size, &indices, target_trees)
    }

    /// Some tree of the forest, if it has one.  The grid is walked once, and
    /// each tree met takes the place of the choice so far with a chance of
    /// one in the number of trees met up to then.
    pub fn pick_random_tree(&self) -> (picked: Option<(usize, usize)>)
        requires
            self.wf(),
        ensures
            match picked {
                Some(p) => on_grid(p, self@.size) && self@.state(p) == CellState::Tree,
                None => forall|p: (usize, usize)|
                    on_grid(p, self@.size) ==> #[trigger] self@.state(p) != CellState::Tree,
            },
    {
        let mut rng = thread_rng();
        let mut selected: Option<(usize, usize)> = None;
        let mut count: usize = 0;
        let size = self.size;
        let mut x: usize = 0;
        proof {
            assert(0 * size == 0);
        }
        while x < size
            invariant
                x <= size == self@.size,
                self.wf(),
                count <= x * size,
                (count == 0) == (selected is None),
                match selected {
                    Some(p) => on_grid(p, self@.size) && self@.state(p) == CellState::Tree,
                    None => forall|p: (usize, usize)|
                        on_grid(p, self@.size) && p.0 < x ==> #[trigger] self@.state(p)
                            != CellState::Tree,
                },
            decreases size - x,
        {
            let mut y: usize = 0;
            while y < size
                invariant
                    x < size == self@.size,
                    y <= size,
                    self.wf(),
                    count <= x * size + y,
                    (count == 0) == (selected is None),
                    match selected {
                        Some(p) => on_grid(p, self@.size) && self@.state(p) == CellState::Tree,
                        None => forall|p: (usize, usize)|
                            on_grid(p, self@.size) && (p.0 < x || (p.0 == x && p.1 < y))
                                ==> #[trigger] self@.state(p) != CellState::Tree,
                    },
                decreases size - y,
            {
                proof {
                    lemma_place_in_order(x as nat, y as nat, size as nat);
                }
                if self.state_at(x, y) == CellState::Tree {
                    count += 1;
                    let draw = random_below(&mut rng, count);
                    selected = reservoir_keep(selected, (x, y), draw);
                }
                y += 1;
            }
            proof {
                assert((x + 1) * size == x * size + size) by (nonlinear_arith);
            }
            x += 1;
        }
        selected
    }

    /// The side of the grid.
    pub fn size(&self) -> (size: usize)
        ensures
            size == self@.size,
    {
        self.size
    }

    /// What the cell `(x, y)` holds.
    pub fn cell(&self, x: usize, y: usize) -> (state: CellState)
        requires
            self.wf(),
            on_grid((x, y), self@.size),
        ensures
            state == self@.state((x, y)),
    {
        self.state_at(x, y)
    }

    /// How many cells held a tree at the start.
    pub fn total_trees(&self) -> (count: usize)
        ensures
            count == self@.total_trees,
    {
        self.total_trees
    }

    /// How many cells have burned down.
    pub fn burned_count(&self) -> (count: usize)
        ensures
            count == self@.burned_count,
    {
        self.burned_count
    }

    /// The share of the cells that held a tree at the start.  It has no value
    /// for a grid without cells.
    pub fn density(&self) -> (density: Ratio)
        requires
            self.wf(),
        ensures
            density.numerator == self@.total_trees,
            density.denominator == self@.size * self@.size,
    {
        Ratio::new(self.total_trees as u64, (self.size * self.size) as u64)
    }

    /// Lightning strikes.  With a cell given, it strikes there; with none,
    /// it strikes some cell of the grid, trees and other ground alike.  A
    /// tree that is struck starts to burn and joins the fire front; a strike
    /// on anything else changes nothing.  The result tells whether the fire
    /// front holds a cell afterwards.
    pub fn ignite(&mut self, pos: Option<(usize, usize)>) -> (burning: bool)
        requires
            old(self).wf(),
            match pos {
                Some(p) => on_grid(p, old(self)@.size),
                None => old(self)@.size > 0,
            },
        ensures
            final(self).wf(),
            match pos {
                Some(p) => final(self)@ == old(self)@.strike(p),
                None => exists|p: (usize, usize)|
                    on_grid(p, old(self)@.size) && final(self)@ == #[trigger] old(self)@.strike(p),
            },
            burning == (final(self)@.front.len() > 0),
    {
        let (x, y) = match pos {
            Some(p) => p,
            None => self.random_strike(),
        };
        if self.state_at(x, y) == CellState::Tree {
            self.set_state(x, y, CellState::Burning);
            self.fire_front.push_back((x, y));
        }
        proof {
            law_strike_keeps_invariant(old(self)@, (x, y));
            assert(self@ == old(self)@.strike((x, y)));
        }
        self.fire_front.len() > 0
    }

    /// One wave of fire.  Every cell of the fire front burns down, and each
    /// tree next to one of them, by the strategy's neighbourhood, starts to
    /// burn and joins the new fire front; the trees set alight in this wave
    /// spread no fire before the next one.  With an empty fire front nothing
    /// changes.  The result tells whether the fire is out.
    pub fn fire_spread<S: FireSpreadStrategy + ?Sized>(&mut self, strategy: &S) -> (quiescent: bool)
        requires
            old(self).wf(),
        ensures
            final(self).wf(),
            final(self)@ == old(self)@.wave(strategy),
            quiescent == (final(self)@.front.len() == 0),
    {
        let batch = self.fire_front.len();
        if batch == 0 {
            proof {
                law_idle_wave(self@, strategy);
            }
            return true;
        }
        let ghost start = self@;
        proof {
            lemma_counts(start);
            assert(start.kindled(Seq::empty()) =~= Seq::empty());
            assert(start.front.skip(0) =~= start.front);
            assert(self@.front =~= start.front.skip(0) + start.kindled(start.sparks(strategy, 0)));
            assert(start.front.take(0) =~= Seq::empty());
        }
        let mut i: usize = 0;
        while i < batch
            invariant
                i <= batch == start.front.len(),
                start.wf(),
                start.burned_count + batch <= usize::MAX,
                self@.size == start.size,
                self@.total_trees == start.total_trees,
                self@.burned_count == start.burned_count + i,
                self@.square(),
                self@.front == start.front.skip(i as int) + start.kindled(
                    start.sparks(strategy, i as nat),
                ),
                forall|p: (usize, usize)|
                    on_grid(p, start.size) ==> #[trigger] self@.state(p) == mid_wave(
                        start.state(p),
                        start.front.take(i as int).contains(p),
                        start.sparks(strategy, i as nat).contains(p),
                    ),
            decreases batch - i,
        {
            let ghost before = start.sparks(strategy, i as nat);
            let ghost entering = self@;
            let cell = self.fire_front.pop_front();
            proof {
                assert(entering.front[0] == start.front[i as int]);
                assert(on_grid(start.front[i as int], start.size));
            }
            let (x, y) = cell.unwrap();
            self.burned_count += 1;
            self.set_state(x, y, CellState::Burned);
            let neighbors = strategy.spread(x, y, self.size);
            proof {
                lemma_with_state(entering, (x, y), CellState::Burned);
                assert(neighbors@.take(0) =~= Seq::empty());
                assert(before + neighbors@.take(0) =~= before);
                assert(self@.front =~= start.front.skip(i + 1) + start.kindled(before));
                assert(start.front.take(i + 1) =~= start.front.take(i as int).push((x, y)));
                assert forall|p: (usize, usize)| on_grid(p, start.size) implies #[trigger]
                    self@.state(p) == mid_wave(
                    start.state(p),
                    start.front.take(i + 1).contains(p),
                    before.contains(p),
                ) by {
                    lemma_seq_contains_after_push(start.front.take(i as int), (x, y), p);
                    if p != (x, y) {
                        assert(self@.state(p) == entering.state(p));
                    } else {
                        assert(start.state(p) == CellState::Burning);
                    }
                }
            }
            let mut j: usize = 0;
            while j < neighbors.len()
                invariant
                    j <= neighbors.len(),
                    i < batch == start.front.len(),
                    start.wf(),
                    before == start.sparks(strategy, i as nat),
                    self@.size == start.size,
                    self@.total_trees == start.total_trees,
                    self@.burned_count == start.burned_count + i + 1,
                    self@.square(),
                    self@.front == start.front.skip(i + 1) + start.kindled(
                        before + neighbors@.take(j as int),
                    ),
                    forall|p: (usize, usize)|
                        on_grid(p, start.size) ==> #[trigger] self@.state(p) == mid_wave(
                            start.state(p),
                            start.front.take(i + 1).contains(p),
                            (before + neighbors@.take(j as int)).contains(p),
                        ),
                decreases neighbors.len() - j,
            {
                let ghost seen = before + neighbors@.take(j as int);
                let ghost reached = before + neighbors@.take(j + 1);
                let ghost entering = self@;
                let (nx, ny) = neighbors[j];
                proof {
                    assert(reached =~= seen.push((nx, ny)));
                    assert(reached.drop_last() =~= seen);
                    lemma_kindled(start, seen);
                    if nx < self.size && ny < self.size {
                        assert(entering.state((nx, ny)) == mid_wave(
                            start.state((nx, ny)),
                            start.front.take(i + 1).contains((nx, ny)),
                            seen.contains((nx, ny)),
                        ));
                    }
                }
                if nx < self.size && ny < self.size && self.state_at(nx, ny) == CellState::Tree {
                    self.set_state(nx, ny, CellState::Burning);
                    self.fire_front.push_back((nx, ny));
                    proof {
                        lemma_with_state(entering, (nx, ny), CellState::Burning);
                        assert(start.kindled(reached) == start.kindled(seen).push((nx, ny)));
                        assert(self@.front =~= start.front.skip(i + 1) + start.kindled(reached));
                    }
                } else {
                    proof {
                        assert(start.kindled(reached) == start.kindled(seen));
                    }
                }
                proof {
                    assert forall|p: (usize, usize)| on_grid(p, start.size) implies #[trigger]
                        self@.state(p) == mid_wave(
                        start.state(p),
                        start.front.take(i + 1).contains(p),
                        reached.contains(p),
                    ) by {
                        lemma_seq_contains_after_push(seen, (nx, ny), p);
                        assert(entering.state(p) == mid_wave(
                            start.state(p),
                            start.front.take(i + 1).contains(p),
                            seen.contains(p),
                        ));
                    }
                }
                j += 1;
            }
            proof {
                assert(neighbors@.take(neighbors@.len() as int) =~= neighbors@);
                assert(start.sparks(strategy, (i + 1) as nat) == before + neighbors@);
            }
            i += 1;
        }
        proof {
            let sparks = start.sparks(strategy, batch as nat);
            let after = start.wave(strategy);
            law_wave_keeps_invariant(start, strategy);
            lemma_sparks(start, strategy, batch as nat);
            assert(start.front.skip(batch as int) =~= Seq::empty());
            assert(start.front.take(batch as int) =~= start.front);
            assert(self@.front =~= after.front);
            assert(self@.cells =~= after.cells) by {
                assert forall|x: int, y: int|
                    0 <= x < start.size && 0 <= y < start.size implies self@.cells[x][y]
                    == after.cells[x][y] by {
                    let p = (x as usize, y as usize);
                    assert(self@.state(p) == mid_wave(
                        start.state(p),
                        start.front.contains(p),
                        sparks.contains(p),
                    ));
                    assert(after.state(p) == start.wave_state(strategy, p));
                    if start.state(p) == CellState::Tree {
                        if sparks.contains(p) {
                            let k = choose|k: int|
                                0 <= k < batch && #[trigger] touches(
                                    strategy,
                                    start.front[k],
                                    p,
                                    start.size,
                                );
                            assert(on_grid(start.front[k], start.size));
                        }
                        if start.catches_fire(strategy, p) {
                            let q = choose|q: (usize, usize)|
                                on_grid(q, start.size) && start.state(q) == CellState::Burning
                                    && #[trigger] touches(
                                    strategy,
                                    q,
                                    p,
                                    start.size,
                                );
                            assert(start.front.contains(q));
                            let k = choose|k: int| 0 <= k < batch && start.front[k] == q;
                            assert(touches(strategy, start.front[k], p, start.size));
                        }
                    }
                }
                assert forall|x: int| 0 <= x < start.size implies self@.cells[x]
                    =~= after.cells[x] by {
                    assert(self@.cells[x].len() == start.size);
                }
            }
        }
        self.fire_front.len() == 0
    }

    /// Lets the fire burn until it is out: wave after wave, up to the first
    /// that leaves the fire front empty.  The result is the number of waves.
    pub fn burn_out<S: FireSpreadStrategy + ?Sized>(&mut self, strategy: &S) -> (waves: usize)
        requires
            old(self).wf(),
        ensures
            final(self).wf(),
            final(self)@ == old(self)@.after_waves(strategy, waves as nat),
            final(self)@.front.len() == 0,
            waves >= 1,
            forall|k: nat|
                1 <= k < waves ==> (#[trigger] old(self)@.after_waves(strategy, k)).front.len() > 0,
            waves == 1 || waves <= old(self)@.total_trees - old(self)@.burned_count,
            waves == 1 || waves <= old(self)@.size * old(self)@.size,
    {
        let ghost start = self@;
        let mut waves: usize = 0;
        proof {
            lemma_counts(start);
        }
        loop
            invariant_except_break
                self@ == start.after_waves(strategy, waves as nat),
                forall|k: nat|
                    1 <= k <= waves ==> (#[trigger] start.after_waves(strategy, k)).front.len() > 0,
                waves == 0 || self@.front.len() > 0,
                waves <= self@.burned_count - start.burned_count,
            invariant
                start.wf(),
                self.wf(),
                self@.total_trees == start.total_trees,
                start.burned_count <= self@.burned_count <= self@.total_trees,
            ensures
                self@ == start.after_waves(strategy, waves as nat),
                self@.front.len() == 0,
                waves >= 1,
                forall|k: nat|
                    1 <= k < waves ==> (#[trigger] start.after_waves(strategy, k)).front.len() > 0,
                waves == 1 || waves <= start.total_trees - start.burned_count,
            decreases self@.total_trees - self@.burned_count,
        {
            let ghost entering = self@;
            let ghost made = waves;
            let done = self.fire_spread(strategy);
            proof {
                lemma_counts(self@);
                lemma_counts(entering);
                if entering.front.len() == 0 {
                    law_idle_wave(entering, strategy);
                }
                assert(self@ == entering.wave(strategy));
                assert(self@ == start.after_waves(strategy, (made + 1) as nat));
            }
            waves += 1;
            if done {
                break;
            }
        }
        waves
    }

    /// Some cell of the grid, drawn by coordinate.
    fn random_strike(&self) -> (p: (usize, usize))
        requires
            self.size > 0,
        ensures
            on_grid(p, self.size as nat),
    {
        let mut rng = thread_rng();
        let x = random_below(&mut rng, self.size);
        let y = random_below(&mut rng, self.size);
        (x, y)
    }
}

} // verus!
