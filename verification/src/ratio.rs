//! Exact fractions of counts: tree densities and burned shares.

use vstd::arithmetic::div_mod::{lemma_fundamental_div_mod, lemma_fundamental_div_mod_converse};
use vstd::prelude::*;

verus! {

/// `n / d`, rounded to the nearest whole number, halves upwards.
pub open spec fn round_half_up(n: nat, d: nat) -> nat {
    ((2 * n + d) / (2 * d)) as nat
}

/// The fraction `numerator / denominator`.  It has no value where the
/// denominator is zero.
#[derive(Clone, Copy, Debug, PartialEq, Eq, Structural)]
pub struct Ratio {
    pub numerator: u64,
    pub denominator: u64,
}

impl Ratio {
    /// Whether the fraction has a value.
    pub open spec fn is_defined(self) -> bool {
        self.denominator > 0
    }

    /// Whether the fraction is a value between zero and one, both included.
    pub open spec fn is_share(self) -> bool {
        0 < self.denominator && self.numerator <= self.denominator
    }

    /// Whether `self` is strictly less than `other`, both having a value.
    pub open spec fn below(self, other: Ratio) -> bool {
        self.numerator * other.denominator < other.numerator * self.denominator
    }

    /// The fraction `numerator / denominator`.
    pub fn new(numerator: u64, denominator: u64) -> (ratio: Ratio)
        ensures
            ratio.numerator == numerator,
            ratio.denominator == denominator,
    {
        Ratio { numerator, denominator }
    }

    /// Tells whether the fraction has a value.
    pub fn has_value(&self) -> (defined: bool)
        ensures
            defined == self.is_defined(),
    {
        self.denominator != 0
    }

    /// Compares two fractions by cross-multiplication.
    pub fn less_than(&self, other: &Ratio) -> (less: bool)
        ensures
            less == self.below(*other),
    {
        assert(self.numerator * other.denominator <= u64::MAX * u64::MAX) by (nonlinear_arith)
            requires
                self.numerator <= u64::MAX,
                other.denominator <= u64::MAX,
        ;
        assert(other.numerator * self.denominator <= u64::MAX * u64::MAX) by (nonlinear_arith)
            requires
                other.numerator <= u64::MAX,
                self.denominator <= u64::MAX,
        ;
        let left: u128 = self.numerator as u128 * other.denominator as u128;
        let right: u128 = other.numerator as u128 * self.denominator as u128;
        left < right
    }

    /// The share of `whole` that the fraction stands for, rounded to the
    /// nearest count, halves upwards.
    pub fn share_of(&self, whole: u64) -> (part: u64)
        requires
            self.is_share(),
        ensures
            part == round_half_up(self.numerator as nat * whole as nat, self.denominator as nat),
            part <= whole,
    {
        let den: u128 = self.denominator as u128;
        assert(self.numerator * whole <= self.denominator * whole <= u64::MAX * u64::MAX)
            by (nonlinear_arith)
            requires
                self.numerator <= self.denominator <= u64::MAX,
                whole <= u64::MAX,
        ;
        let scaled: u128 = self.numerator as u128 * whole as u128;
        let quotient: u128 = scaled / den;
        let rest: u128 = scaled % den;
        proof {
            lemma_fundamental_div_mod(scaled as int, den as int);
            lemma_share_bounded(scaled as int, den as int, whole as int, quotient as int, rest as int);
            lemma_round_half_up(scaled as nat, den as nat, quotient as nat, rest as nat);
        }
        if rest >= den - rest {
            (quotient + 1) as u64
        } else {
            quotient as u64
        }
    }
}

/// The quotient of a scaled share never exceeds the whole, and reaches it
/// only without a rest.
proof fn lemma_share_bounded(scaled: int, den: int, whole: int, quotient: int, rest: int)
    by (nonlinear_arith)
    requires
        0 < den,
        0 <= whole,
        0 <= scaled <= den * whole,
        0 <= rest < den,
        scaled == den * quotient + rest,
    ensures
        0 <= quotient <= whole,
        quotient == whole ==> rest == 0,
{
}

/// Rounding to the nearest whole number, told from quotient and rest.
pub proof fn lemma_round_half_up(n: nat, d: nat, quotient: nat, rest: nat)
    requires
        0 < d,
        rest < d,
        n == d * quotient + rest,
    ensures
        round_half_up(n, d) == if 2 * rest >= d {
            quotient + 1
        } else {
            quotient
        },
{
    let twice = 2 * d as int;
    if 2 * rest >= d {
        assert(2 * n + d == (quotient + 1) * twice + (2 * rest - d)) by (nonlinear_arith)
            requires
                n == d * quotient + rest,
                twice == 2 * d,
        ;
        lemma_fundamental_div_mod_converse(
            (2 * n + d) as int,
            twice,
            (quotient + 1) as int,
            2 * rest - d,
        );
    } else {
        assert(2 * n + d == quotient * twice + (2 * rest + d)) by (nonlinear_arith)
            requires
                n == d * quotient + rest,
                twice == 2 * d,
        ;
        lemma_fundamental_div_mod_converse(
            (2 * n + d) as int,
            twice,
            quotient as int,
            (2 * rest + d) as int,
        );
    }
}

/// A share of nothing, and nothing of a whole, is nothing; all of a whole is
/// the whole.
pub proof fn law_round_ends(n: nat, d: nat)
    requires
        0 < d,
    ensures
        round_half_up(0, d) == 0,
        round_half_up(d * n, d) == n,
        round_half_up(n * d, d) == n,
        round_half_up(0 * n, d) == 0,
{
    lemma_round_half_up(0, d, 0, 0);
    lemma_round_half_up(d * n, d, n, 0);
    assert(n * d == d * n) by (nonlinear_arith);
    assert(0 * n == 0);
}

} // verus!
