//! The batch driver: repeated trials, and what they add up to.

use crate::fire_spread::FireSpreadStrategy;
use crate::forest::{CellState, Forest};
use crate::laws::{law_burned_at_most_total, law_waves_keep_invariant, lemma_burned_grows};
use crate::ratio::{round_half_up, Ratio};
use vstd::prelude::*;

verus! {

/// What a batch of trials added up to.  A trial counts when its forest had
/// a tree to burn; the share of a trial is the part of its trees that burned
/// down.
#[derive(Debug)]
pub struct SimulationResults {
    /// How many trials were counted.
    pub trials: usize,
    /// The cells that burned down, over all trials counted.
    pub total_burned: u128,
    /// The cells that held a tree at the start, over all trials counted.
    pub total_trees: u128,
    /// The least share of a trial.
    pub min_burned: Option<Ratio>,
    /// The greatest share of a trial.
    pub max_burned: Option<Ratio>,
    /// The density of the trial that gave the least share.
    pub min_density: Option<Ratio>,
}

impl SimulationResults {
    /// The results of no trial at all.
    pub open spec fn empty() -> SimulationResults {
        SimulationResults {
            trials: 0,
            total_burned: 0,
            total_trees: 0,
            min_burned: None,
            max_burned: None,
            min_density: None,
        }
    }

    /// The invariant of the results: the extremes are there once a trial was
    /// counted, they are shares with the least not above the greatest, and
    /// no more cells burned than held a tree.
    pub open spec fn wf(self) -> bool {
        &&& self.total_burned <= self.total_trees <= self.trials * u64::MAX
        &&& self.trials == 0 <==> self.min_burned is None
        &&& self.trials == 0 <==> self.max_burned is None
        &&& self.trials == 0 <==> self.min_density is None
        &&& self.min_burned matches Some(least) ==> least.is_share()
        &&& self.max_burned matches Some(greatest) ==> greatest.is_share()
        &&& self.min_burned matches Some(least) ==> (self.max_burned matches Some(greatest)
            ==> !greatest.below(least))
    }

    /// The results with one more trial counted, of the given share and
    /// density.  A share replaces the least only when it is below it, and
    /// the greatest only when it is above it.
    pub open spec fn with_trial(self, share: Ratio, density: Ratio) -> SimulationResults {
        let lower = match self.min_burned {
            Some(least) => share.below(least),
            None => true,
        };
        let higher = match self.max_burned {
            Some(greatest) => greatest.below(share),
            None => true,
        };
        SimulationResults {
            trials: (self.trials + 1) as usize,
            total_burned: (self.total_burned + share.numerator) as u128,
            total_trees: (self.total_trees + share.denominator) as u128,
            min_burned: if lower {
                Some(share)
            } else {
                self.min_burned
            },
            max_burned: if higher {
                Some(share)
            } else {
                self.max_burned
            },
            min_density: if lower {
                Some(density)
            } else {
                self.min_density
            },
        }
    }

    /// The results of no trial at all.
    pub fn new() -> (results: SimulationResults)
        ensures
            results == SimulationResults::empty(),
            results.wf(),
    {
        proof {
            assert(0 * u64::MAX == 0);
        }
        SimulationResults {
            trials: 0,
            total_burned: 0,
            total_trees: 0,
            min_burned: None,
            max_burned: None,
            min_density: None,
        }
    }

    /// Counts one more trial: `share` is the part of its trees that burned
    /// down, `density` the density it was seeded with.
    pub fn record(&mut self, share: Ratio, density: Ratio)
        requires
            old(self).wf(),
            old(self).trials < usize::MAX,
            share.is_share(),
        ensures
            *final(self) == old(self).with_trial(share, density),
            final(self).wf(),
            final(self).trials == old(self).trials + 1,
            final(self).total_burned == old(self).total_burned + share.numerator,
            final(self).total_trees == old(self).total_trees + share.denominator,
    {
        proof {
            assert((self.trials + 1) * u64::MAX == self.trials * u64::MAX + u64::MAX)
                by (nonlinear_arith);
            assert((self.trials + 1) * u64::MAX <= usize::MAX * u64::MAX) by (nonlinear_arith)
                requires
                    self.trials + 1 <= usize::MAX,
            ;
            assert(usize::MAX * u64::MAX <= u64::MAX * u64::MAX) by (nonlinear_arith)
                requires
                    usize::MAX <= u64::MAX,
            ;
        }
        let lower = match self.min_burned {
            Some(least) => share.less_than(&least),
            None => true,
        };
        let higher = match self.max_burned {
            Some(greatest) => greatest.less_than(&share),
            None => true,
        };
        self.trials = self.trials + 1;
        self.total_burned = self.total_burned + share.numerator as u128;
        self.total_trees = self.total_trees + share.denominator as u128;
        if lower {
            self.min_burned = Some(share);
            self.min_density = Some(density);
        }
        if higher {
            self.max_burned = Some(share);
        }
    }

    /// The burned share over all trials counted: the cells that burned down
    /// and the cells that held a tree.  Without a tree in any trial there is
    /// no such share, and the result says so.
    pub fn average_burned(&self) -> (average: Option<(u128, u128)>)
        ensures
            average == (if self.total_trees == 0 {
                None
            } else {
                Some((self.total_burned, self.total_trees))
            }),
    {
        if self.total_trees == 0 {
            None
        } else {
            Some((self.total_burned, self.total_trees))
        }
    }
}

/// The number of trees that a forest of side `size` is seeded with at the
/// given density.
pub open spec fn seeded_trees(size: usize, density: Ratio) -> nat {
    round_half_up(
        density.numerator as nat * (size as nat * size as nat),
        density.denominator as nat,
    )
}

/// One trial: a fresh forest is seeded, one of its trees is struck, and the
/// fire burns until it is out.  The result is the share of the trees that
/// burned down, and nothing for a forest without a tree.
pub fn run_trial<S: FireSpreadStrategy + ?Sized>(size: usize, density: Ratio, strategy: &S) -> (share:
    Option<Ratio>)
    requires
        size * size <= usize::MAX,
        density.is_share(),
    ensures
        match share {
            None => seeded_trees(size, density) == 0,
            Some(share) => {
                &&& seeded_trees(size, density) > 0
                &&& share.denominator == seeded_trees(size, density)
                &&& 1 <= share.numerator <= share.denominator
            },
        },
{
    let mut forest = Forest::new(size, density);
    if forest.total_trees() == 0 {
        return None;
    }
    let start = forest.pick_random_tree();
    proof {
        if start is None {
            assert(forest@.cells_in(CellState::Tree) =~= Set::empty());
        }
    }
    let ghost seeded = forest@;
    forest.ignite(start);
    let ghost struck = forest@;
    let waves = forest.burn_out(strategy);
    proof {
        assert(struck.front.len() == 1);
        assert(struck.after_waves(strategy, 1) == struck.after_waves(strategy, 0).wave(strategy));
        lemma_burned_grows(struck, strategy, 1, waves as nat);
        law_waves_keep_invariant(struck, strategy, waves as nat);
        law_burned_at_most_total(forest@);
    }
    Some(Ratio::new(forest.burned_count() as u64, forest.total_trees() as u64))
}

/// A batch of trials at one size and density.  Trials whose forest has no
/// tree are skipped and count for nothing.
pub fn run_simulations<S: FireSpreadStrategy + ?Sized>(
    size: usize,
    density: Ratio,
    simulations: usize,
    strategy: &S,
) -> (results: SimulationResults)
    requires
        size * size <= usize::MAX,
        density.is_share(),
    ensures
        results.wf(),
        results.trials == (if seeded_trees(size, density) == 0 {
            0
        } else {
            simulations
        }),
        results.total_trees == results.trials * seeded_trees(size, density),
        results.trials <= results.total_burned <= results.total_trees,
        results.min_burned matches Some(least) ==> least.denominator == seeded_trees(size, density)
            && least.numerator >= 1,
        results.max_burned matches Some(greatest) ==> greatest.denominator == seeded_trees(
            size,
            density,
        ) && greatest.numerator >= 1,
        results.min_burned matches Some(least) ==> least.numerator * results.trials
            <= results.total_burned,
        results.max_burned matches Some(greatest) ==> results.total_burned <= greatest.numerator
            * results.trials,
        results.min_density == (if results.trials == 0 {
            None
        } else {
            Some(density)
        }),
        results.trials == 0 ==> results == SimulationResults::empty(),
{
    let mut results = SimulationResults::new();
    let mut done: usize = 0;
    let ghost target = seeded_trees(size, density);
    proof {
        assert(0 * target == 0);
    }
    while done < simulations
        invariant
            done <= simulations,
            size * size <= usize::MAX,
            density.is_share(),
            target == seeded_trees(size, density),
            results.wf(),
            results.trials == (if target == 0 {
                0
            } else {
                done
            }),
            results.total_trees == results.trials * target,
            results.trials <= results.total_burned <= results.total_trees,
            results.min_burned matches Some(least) ==> least.denominator == target
                && least.numerator >= 1,
            results.max_burned matches Some(greatest) ==> greatest.denominator == target
                && greatest.numerator >= 1,
            results.min_burned matches Some(least) ==> least.numerator * results.trials
                <= results.total_burned,
            results.max_burned matches Some(greatest) ==> results.total_burned
                <= greatest.numerator * results.trials,
            results.min_density == (if results.trials == 0 {
                None
            } else {
                Some(density)
            }),
            results.trials == 0 ==> results == SimulationResults::empty(),
        decreases simulations - done,
    {
        match run_trial(size, density, strategy) {
            Some(share) => {
                let ghost before = results;
                results.record(share, density);
                proof {
                    assert((before.trials + 1) * target == before.trials * target + target)
                        by (nonlinear_arith);
                    match before.min_burned {
                        Some(least) => {
                            lemma_extremes_hold(least, share, before.trials as nat);
                            lemma_extremes_hold(share, least, before.trials as nat);
                        },
                        None => {
                            assert(share.numerator * 1 == share.numerator);
                        },
                    }
                    match before.max_burned {
                        Some(greatest) => {
                            lemma_extremes_hold(share, greatest, before.trials as nat);
                            lemma_extremes_hold(greatest, share, before.trials as nat);
                        },
                        None => {},
                    }
                }
            },
            None => {},
        }
        done += 1;
    }
    results
}

/// Shares of one denominator compare as their numerators do, and so do
/// their multiples.
proof fn lemma_extremes_hold(low: Ratio, high: Ratio, times: nat)
    requires
        0 < low.denominator == high.denominator,
    ensures
        low.below(high) <==> low.numerator < high.numerator,
        low.numerator <= high.numerator ==> low.numerator * times <= high.numerator * times,
        low.numerator * (times + 1) == low.numerator * times + low.numerator,
{
    let d = low.denominator as int;
    let a = low.numerator as int;
    let b = high.numerator as int;
    assert(a * d < b * d <==> a < b) by (nonlinear_arith)
        requires
            d > 0,
    ;
    assert(a <= b ==> a * times <= b * times) by (nonlinear_arith);
    assert(a * (times + 1) == a * times + a) by (nonlinear_arith);
}

} // verus!
