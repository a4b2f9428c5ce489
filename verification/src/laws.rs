//! What holds of every forest: the invariant and what follows from it.

use crate::fire_spread::FireSpreadStrategy;
use crate::forest::CellState;
use crate::lattice::{lemma_cells_bounded, on_grid};
use crate::model::{never_reverts, touches, ForestView};
use vstd::prelude::*;
use vstd::seq_lib::*;
use vstd::set_lib::*;

verus! {

/// Writing to a cell of a square grid changes that cell and no other.
pub proof fn lemma_with_state(v: ForestView, p: (usize, usize), state: CellState)
    requires
        v.square(),
        on_grid(p, v.size),
    ensures
        v.with_state(p, state).square(),
        v.with_state(p, state).size == v.size,
        v.with_state(p, state).state(p) == state,
        forall|q: (usize, usize)|
            on_grid(q, v.size) && q != p ==> #[trigger] v.with_state(p, state).state(q) == v.state(
                q,
            ),
{
    let w = v.with_state(p, state);
    assert(v.cells[p.0 as int].len() == v.size);
    assert forall|x: int| 0 <= x < w.size implies (#[trigger] w.cells[x]).len() == w.size by {
        assert(v.cells[x].len() == v.size);
    }
    assert forall|q: (usize, usize)| on_grid(q, v.size) && q != p implies #[trigger] w.state(q)
        == v.state(q) by {
        assert(v.cells[q.0 as int].len() == v.size);
    }
}

/// A strike keeps the invariant of a forest, and no cell reverts by it.
pub proof fn law_strike_keeps_invariant(v: ForestView, p: (usize, usize))
    requires
        v.wf(),
        on_grid(p, v.size),
    ensures
        v.strike(p).wf(),
        v.strike(p).size == v.size,
        v.strike(p).burned_count == v.burned_count,
        v.strike(p).total_trees == v.total_trees,
        forall|q: (usize, usize)|
            on_grid(q, v.size) ==> never_reverts(v.state(q), #[trigger] v.strike(p).state(q)),
{
    let w = v.strike(p);
    if v.state(p) == CellState::Tree {
        lemma_with_state(v, p, CellState::Burning);
        assert(w.cells == v.with_state(p, CellState::Burning).cells);
        assert forall|q: (usize, usize)| on_grid(q, v.size) implies w.state(q) == (if q == p {
            CellState::Burning
        } else {
            v.state(q)
        }) by {
            if q != p {
                assert(v.with_state(p, CellState::Burning).state(q) == v.state(q));
            }
        }
        assert(!v.front.contains(p)) by {
            if v.front.contains(p) {
                let i = choose|i: int| 0 <= i < v.front.len() && v.front[i] == p;
                assert(v.state(v.front[i]) == CellState::Burning);
            }
        }
        assert(w.front.no_duplicates());
        assert forall|i: int| 0 <= i < w.front.len() implies on_grid(
            #[trigger] w.front[i],
            w.size,
        ) && w.state(w.front[i]) == CellState::Burning by {
            if i < v.front.len() {
                assert(w.front[i] == v.front[i]);
                assert(v.state(v.front[i]) == CellState::Burning);
            }
        }
        assert forall|q: (usize, usize)|
            on_grid(q, w.size) && #[trigger] w.state(q) == CellState::Burning implies w.front.contains(
            q,
        ) by {
            if q == p {
                assert(w.front[v.front.len() as int] == p);
            } else {
                assert(v.state(q) == CellState::Burning);
                let i = choose|i: int| 0 <= i < v.front.len() && v.front[i] == q;
                assert(w.front[i] == q);
            }
        }
        assert(w.cells_in(CellState::Burned) =~= v.cells_in(CellState::Burned));
        assert(w.fuel() =~= v.fuel());
    }
}

/// The sparks of the first `k` cells of the fire front are the cells that
/// one of these touches.
pub proof fn lemma_sparks<S: FireSpreadStrategy + ?Sized>(v: ForestView, s: &S, k: nat)
    requires
        k <= v.front.len(),
    ensures
        forall|p: (usize, usize)| #[trigger]
            v.sparks(s, k).contains(p) <==> exists|i: int|
                0 <= i < k && #[trigger] touches(s, v.front[i], p, v.size),
    decreases k,
{
    broadcast use lemma_seq_concat_contains_all_elements;

    if k > 0 {
        let shorter = (k - 1) as nat;
        let before = v.sparks(s, shorter);
        let q = v.front[k - 1];
        let around = s.neighborhood(q.0 as int, q.1 as int, v.size as int);
        lemma_sparks(v, s, shorter);
        assert(v.sparks(s, k) == before + around);
        assert forall|p: (usize, usize)| #[trigger]
            v.sparks(s, k).contains(p) <==> exists|i: int|
                0 <= i < k && #[trigger] touches(s, v.front[i], p, v.size) by {
            if before.contains(p) {
                let i = choose|i: int| 0 <= i < shorter && #[trigger] touches(s, v.front[i], p, v.size);
                assert(0 <= i < k && touches(s, v.front[i], p, v.size));
            }
            if around.contains(p) {
                assert(touches(s, v.front[k - 1], p, v.size));
            }
            if exists|i: int| 0 <= i < k && #[trigger] touches(s, v.front[i], p, v.size) {
                let i = choose|i: int| 0 <= i < k && #[trigger] touches(s, v.front[i], p, v.size);
                if i < shorter {
                    assert(before.contains(p));
                } else {
                    assert(around.contains(p));
                }
            }
        }
    }
}

/// The cells that sparks set alight are the trees of the grid among the
/// sparks, each once.
pub proof fn lemma_kindled(v: ForestView, sparks: Seq<(usize, usize)>)
    ensures
        v.kindled(sparks).no_duplicates(),
        forall|p: (usize, usize)| #[trigger]
            v.kindled(sparks).contains(p) <==> sparks.contains(p) && on_grid(p, v.size) && v.state(
                p,
            ) == CellState::Tree,
    decreases sparks.len(),
{
    broadcast use lemma_seq_contains_after_push;

    if sparks.len() > 0 {
        let rest = sparks.drop_last();
        let last = sparks.last();
        lemma_kindled(v, rest);
        assert(sparks =~= rest.push(last));
    }
}

/// In a forest that keeps its invariant, the cells that burn or have burned
/// are among those that held a tree, and these are cells of the grid.
pub proof fn lemma_counts(v: ForestView)
    requires
        v.wf(),
    ensures
        v.fuel().finite(),
        v.cells_in(CellState::Burned).finite(),
        v.front.to_set().finite(),
        v.front.to_set().len() == v.front.len(),
        v.front.to_set().disjoint(v.cells_in(CellState::Burned)),
        v.burned_count + v.front.len() <= v.total_trees <= v.size * v.size,
{
    let burned = v.cells_in(CellState::Burned);
    let burning = v.front.to_set();
    lemma_cells_bounded(v.fuel(), v.size);
    lemma_cells_bounded(burned, v.size);
    v.front.unique_seq_to_set();
    seq_to_set_is_finite(v.front);
    assert forall|p: (usize, usize)| burning.contains(p) implies on_grid(p, v.size) && v.state(p)
        == CellState::Burning by {
        let i = choose|i: int| 0 <= i < v.front.len() && v.front[i] == p;
        assert(on_grid(v.front[i], v.size));
    }
    assert(burning.disjoint(burned));
    lemma_set_disjoint_lens(burning, burned);
    assert((burning + burned).subset_of(v.fuel()));
    lemma_len_subset(burning + burned, v.fuel());
}

/// A wave keeps the invariant of a forest, and no cell reverts by it.
pub proof fn law_wave_keeps_invariant<S: FireSpreadStrategy + ?Sized>(v: ForestView, s: &S)
    requires
        v.wf(),
    ensures
        v.wave(s).wf(),
        forall|p: (usize, usize)|
            on_grid(p, v.size) ==> #[trigger] v.wave(s).state(p) == v.wave_state(s, p),
        forall|p: (usize, usize)|
            on_grid(p, v.size) ==> never_reverts(v.state(p), #[trigger] v.wave(s).state(p)),
{
    let w = v.wave(s);
    let n = v.front.len();
    let sparks = v.sparks(s, n);
    lemma_sparks(v, s, n);
    lemma_kindled(v, sparks);
    lemma_counts(v);
    assert(w.square());
    assert forall|p: (usize, usize)| on_grid(p, v.size) implies #[trigger] w.state(p)
        == v.wave_state(s, p) by {
        assert((p.0 as int as usize, p.1 as int as usize) == p);
    }
    assert forall|i: int| 0 <= i < w.front.len() implies on_grid(#[trigger] w.front[i], w.size)
        && w.state(w.front[i]) == CellState::Burning by {
        let p = w.front[i];
        assert(w.front.contains(p));
        assert(sparks.contains(p));
        let k = choose|k: int| 0 <= k < n && #[trigger] touches(s, v.front[k], p, v.size);
        assert(on_grid(v.front[k], v.size) && v.state(v.front[k]) == CellState::Burning);
        assert(v.catches_fire(s, p));
        assert(w.state(p) == v.wave_state(s, p));
    }
    assert forall|p: (usize, usize)|
        on_grid(p, w.size) && #[trigger] w.state(p) == CellState::Burning implies w.front.contains(
        p,
    ) by {
        assert(w.state(p) == v.wave_state(s, p));
        assert(v.catches_fire(s, p));
        let q = choose|q: (usize, usize)|
            on_grid(q, v.size) && v.state(q) == CellState::Burning && #[trigger] touches(
                s,
                q,
                p,
                v.size,
            );
        assert(v.front.contains(q));
        let k = choose|k: int| 0 <= k < n && v.front[k] == q;
        assert(touches(s, v.front[k], p, v.size));
        assert(sparks.contains(p));
    }
    assert(w.cells_in(CellState::Burned) =~= v.front.to_set() + v.cells_in(CellState::Burned)) by {
        assert forall|p: (usize, usize)|
            w.cells_in(CellState::Burned).contains(p) <==> (v.front.to_set() + v.cells_in(
                CellState::Burned,
            )).contains(p) by {
            if on_grid(p, v.size) {
                assert(w.state(p) == v.wave_state(s, p));
                if v.state(p) == CellState::Burning {
                    assert(v.front.contains(p));
                }
            }
            if v.front.contains(p) {
                let i = choose|i: int| 0 <= i < n && v.front[i] == p;
                assert(on_grid(v.front[i], v.size));
            }
        }
    }
    lemma_set_disjoint_lens(v.front.to_set(), v.cells_in(CellState::Burned));
    assert(w.fuel() =~= v.fuel()) by {
        assert forall|p: (usize, usize)| w.fuel().contains(p) <==> v.fuel().contains(p) by {
            if on_grid(p, v.size) {
                assert(w.state(p) == v.wave_state(s, p));
            }
        }
    }
}

/// A wave over a forest in which nothing burns changes nothing.
pub proof fn law_idle_wave<S: FireSpreadStrategy + ?Sized>(v: ForestView, s: &S)
    requires
        v.wf(),
        v.front.len() == 0,
    ensures
        v.wave(s) == v,
{
    let w = v.wave(s);
    assert(w.front =~= v.front);
    assert(w.cells =~= v.cells) by {
        assert forall|x: int, y: int| 0 <= x < v.size && 0 <= y < v.size implies w.cells[x][y]
            == v.cells[x][y] by {
            let p = (x as usize, y as usize);
            if v.state(p) == CellState::Burning {
                assert(v.front.contains(p));
            }
            if v.catches_fire(s, p) {
                let q = choose|q: (usize, usize)|
                    on_grid(q, v.size) && v.state(q) == CellState::Burning && #[trigger] touches(
                        s,
                        q,
                        p,
                        v.size,
                    );
                assert(v.front.contains(q));
            }
        }
        assert forall|x: int| 0 <= x < v.size implies w.cells[x] =~= v.cells[x] by {
            assert(v.cells[x].len() == v.size);
        }
    }
}

/// A grid on which trees were planted on given cells, each named once, and
/// nothing else happened, is a forest with as many trees as cells were named.
pub proof fn lemma_seeded(v: ForestView, planted: Seq<(usize, usize)>)
    requires
        v.size <= usize::MAX,
        v.square(),
        v.front.len() == 0,
        v.burned_count == 0,
        v.total_trees == planted.len(),
        planted.no_duplicates(),
        forall|k: int| 0 <= k < planted.len() ==> on_grid(#[trigger] planted[k], v.size),
        forall|p: (usize, usize)|
            on_grid(p, v.size) ==> #[trigger] v.state(p) == (if planted.contains(p) {
                CellState::Tree
            } else {
                CellState::Empty
            }),
    ensures
        v.wf(),
        v.cells_in(CellState::Tree) == planted.to_set(),
        v.cells_in(CellState::Tree).len() == planted.len(),
{
    planted.unique_seq_to_set();
    assert(v.cells_in(CellState::Tree) =~= planted.to_set()) by {
        assert forall|p: (usize, usize)| planted.contains(p) implies on_grid(p, v.size) by {
            let k = choose|k: int| 0 <= k < planted.len() && planted[k] == p;
            assert(on_grid(planted[k], v.size));
        }
    }
    assert(v.fuel() =~= v.cells_in(CellState::Tree));
    assert(v.cells_in(CellState::Burned) =~= Set::empty());
}

/// The fire front is empty exactly when no cell of the grid is burning.
pub proof fn law_front_holds_the_burning(v: ForestView)
    requires
        v.wf(),
    ensures
        v.front.len() == 0 <==> v.quiescent(),
{
    if v.front.len() > 0 {
        assert(on_grid(v.front[0], v.size) && v.state(v.front[0]) == CellState::Burning);
    }
    if !v.quiescent() {
        let p = choose|p: (usize, usize)|
            on_grid(p, v.size) && #[trigger] v.state(p) == CellState::Burning;
        assert(v.front.contains(p));
    }
}

/// Never more cells have burned down than held a tree, and as many only
/// when every tree has burned down: when no tree stands and none is burning.
pub proof fn law_burned_at_most_total(v: ForestView)
    requires
        v.wf(),
    ensures
        v.burned_count <= v.total_trees <= v.size * v.size,
        v.burned_count == v.total_trees <==> forall|p: (usize, usize)|
            on_grid(p, v.size) ==> #[trigger] v.state(p) != CellState::Tree && v.state(p)
                != CellState::Burning,
{
    lemma_counts(v);
    let burned = v.cells_in(CellState::Burned);
    assert(burned.subset_of(v.fuel()));
    if v.burned_count == v.total_trees {
        lemma_subset_equality(burned, v.fuel());
        assert forall|p: (usize, usize)| on_grid(p, v.size) implies #[trigger] v.state(p)
            != CellState::Tree && v.state(p) != CellState::Burning by {
            if v.state(p) != CellState::Empty {
                assert(v.fuel().contains(p));
                assert(burned.contains(p));
            }
        }
    }
    if forall|p: (usize, usize)|
        on_grid(p, v.size) ==> #[trigger] v.state(p) != CellState::Tree && v.state(p)
            != CellState::Burning {
        assert(burned =~= v.fuel()) by {
            assert forall|p: (usize, usize)| v.fuel().contains(p) implies burned.contains(p) by {
                assert(v.state(p) != CellState::Tree && v.state(p) != CellState::Burning);
            }
        }
    }
}

/// Any number of waves keeps the invariant of a forest; no cell reverts by
/// them, and the number of burned cells does not fall.
pub proof fn law_waves_keep_invariant<S: FireSpreadStrategy + ?Sized>(v: ForestView, s: &S, k: nat)
    requires
        v.wf(),
    ensures
        v.after_waves(s, k).wf(),
        v.after_waves(s, k).size == v.size,
        v.after_waves(s, k).total_trees == v.total_trees,
        v.after_waves(s, k).burned_count >= v.burned_count,
        forall|p: (usize, usize)|
            on_grid(p, v.size) ==> never_reverts(v.state(p), #[trigger] v.after_waves(s, k).state(p)),
    decreases k,
{
    if k > 0 {
        let before = v.after_waves(s, (k - 1) as nat);
        let after = v.after_waves(s, k);
        law_waves_keep_invariant(v, s, (k - 1) as nat);
        law_wave_keeps_invariant(before, s);
        assert forall|p: (usize, usize)| on_grid(p, v.size) implies never_reverts(
            v.state(p),
            #[trigger] after.state(p),
        ) by {
            assert(never_reverts(v.state(p), before.state(p)));
            assert(never_reverts(before.state(p), before.wave(s).state(p)));
        }
    }
}

/// While the fire lasts, every wave burns down one cell at least.
pub proof fn lemma_fire_progress<S: FireSpreadStrategy + ?Sized>(v: ForestView, s: &S, k: nat)
    requires
        v.wf(),
    ensures
        v.after_waves(s, k).front.len() == 0 || v.after_waves(s, k).burned_count >= v.burned_count
            + k,
        k > 0 && v.after_waves(s, k).front.len() > 0 ==> v.after_waves(s, (k - 1) as nat).front.len()
            > 0,
    decreases k,
{
    if k > 0 {
        let before = v.after_waves(s, (k - 1) as nat);
        lemma_fire_progress(v, s, (k - 1) as nat);
        law_waves_keep_invariant(v, s, (k - 1) as nat);
        if before.front.len() == 0 {
            law_idle_wave(before, s);
        }
    }
}

/// The fire dies out: after as many waves as trees were left to burn, and
/// so after as many waves as the grid has cells, the fire front is empty and
/// stays so.
pub proof fn law_fire_dies_out<S: FireSpreadStrategy + ?Sized>(v: ForestView, s: &S, k: nat)
    requires
        v.wf(),
        k >= v.total_trees - v.burned_count || k >= v.size * v.size,
    ensures
        v.after_waves(s, k).front.len() == 0,
        v.after_waves(s, k).quiescent(),
{
    let w = v.after_waves(s, k);
    lemma_fire_progress(v, s, k);
    law_waves_keep_invariant(v, s, k);
    lemma_counts(w);
    lemma_counts(v);
    law_front_holds_the_burning(w);
}

/// The number of burned cells never falls from wave to wave.
pub proof fn lemma_burned_grows<S: FireSpreadStrategy + ?Sized>(
    v: ForestView,
    s: &S,
    j: nat,
    k: nat,
)
    requires
        j <= k,
    ensures
        v.after_waves(s, j).burned_count <= v.after_waves(s, k).burned_count,
    decreases k,
{
    if j < k {
        lemma_burned_grows(v, s, j, (k - 1) as nat);
    }
}

/// Waves add up: `j` waves and then `k` more are `j + k` waves.
pub proof fn law_waves_add_up<S: FireSpreadStrategy + ?Sized>(
    v: ForestView,
    s: &S,
    j: nat,
    k: nat,
)
    ensures
        v.after_waves(s, j).after_waves(s, k) == v.after_waves(s, j + k),
    decreases k,
{
    if k > 0 {
        law_waves_add_up(v, s, j, (k - 1) as nat);
        assert(v.after_waves(s, j + k) == v.after_waves(s, ((j + k) - 1) as nat).wave(s));
    }
}

} // verus!
