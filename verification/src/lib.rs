//! A verified engine for the sliding-tile merge game 2048.
//!
//! The board is a 4x4 grid of tile exponents (a cell holding `n` stands for
//! the tile `2^n`, `0` for an empty cell).  The crate provides the exact
//! shift/merge/spawn transition rules together with a family of
//! move-selection agents: pure random play, Monte-Carlo rollout averaging,
//! and a budget-bounded expectimax search.

pub mod agent;
pub mod game;
mod rng;

use vstd::prelude::*;

verus! {

/// Saturating addition on `usize`, shared by the scoring and counting code.
pub fn sat_add(a: usize, b: usize) -> (r: usize)
    ensures
        r == sat_add_spec(a as int, b as int),
{
    if a <= usize::MAX - b {
        a + b
    } else {
        usize::MAX
    }
}

/// Mathematical model of saturating `usize` addition.
pub open spec fn sat_add_spec(a: int, b: int) -> int {
    if a + b > usize::MAX {
        usize::MAX as int
    } else {
        a + b
    }
}

/// Saturating additions of non-negative amounts can be chained: adding `b`
/// and then `c` saturates exactly like adding `b + c` at once.
pub proof fn lemma_sat_add_chain(a: int, b: int, c: int)
    requires
        0 <= a,
        0 <= b,
        0 <= c,
    ensures
        sat_add_spec(sat_add_spec(a, b), c) == sat_add_spec(a, b + c),
{
}

/// Saturating multiplication on `usize`, used when weighting scores.
pub fn sat_mul(a: usize, b: usize) -> (r: usize)
    ensures
        r == sat_mul_spec(a as int, b as int),
{
    if b == 0 {
        0
    } else if a <= usize::MAX / b {
        proof {
            let m = usize::MAX as int;
            let bb = b as int;
            vstd::arithmetic::div_mod::lemma_fundamental_div_mod(m, bb);
            vstd::arithmetic::div_mod::lemma_mod_bound(m, bb);
            assert((a as int) * bb <= m) by (nonlinear_arith)
                requires
                    bb > 0,
                    a as int <= m / bb,
                    m == bb * (m / bb) + (m % bb),
                    m % bb >= 0,
            ;
        }
        a * b
    } else {
        proof {
            let m = usize::MAX as int;
            let bb = b as int;
            vstd::arithmetic::div_mod::lemma_fundamental_div_mod(m, bb);
            vstd::arithmetic::div_mod::lemma_mod_bound(m, bb);
            assert((a as int) * bb > m) by (nonlinear_arith)
                requires
                    bb > 0,
                    a as int > m / bb,
                    m == bb * (m / bb) + (m % bb),
                    m % bb < bb,
            ;
        }
        usize::MAX
    }
}

/// Mathematical model of saturating `usize` multiplication.
pub open spec fn sat_mul_spec(a: int, b: int) -> int {
    if a * b > usize::MAX {
        usize::MAX as int
    } else {
        a * b
    }
}

/// The larger of two mathematical integers.
pub open spec fn imax(a: int, b: int) -> int {
    if a >= b {
        a
    } else {
        b
    }
}

/// The smaller of two mathematical integers.
pub open spec fn imin(a: int, b: int) -> int {
    if a <= b {
        a
    } else {
        b
    }
}

/// Weighting a rollout sum `s` of `n` rollouts, each worth at least `c`,
/// by a factor `e` and averaging over the `n` rollouts keeps at least
/// `e * c` — up to the ceiling the saturations impose.
pub proof fn lemma_weighted_avg_bound(e: int, s: int, n: int, c: int)
    requires
        0 <= e,
        0 <= c,
        1 <= n,
        0 <= s <= usize::MAX,
        s >= sat_mul_spec(n, c),
    ensures
        sat_mul_spec(e, s) / n >= imin(e * c, usize::MAX as int / n),
{
    let m = usize::MAX as int;
    let p = sat_mul_spec(e, s);
    assert(0int / n == 0) by (nonlinear_arith)
        requires
            n >= 1,
    ;
    vstd::arithmetic::div_mod::lemma_div_is_ordered(0, m, n);
    if e == 0 {
        assert(e * s == 0 && e * c == 0) by (nonlinear_arith)
            requires
                e == 0,
        ;
        assert(p == 0);
    } else if e * s > m {
        assert(p == m);
        vstd::arithmetic::div_mod::lemma_div_is_ordered(0, p, n);
    } else {
        assert(p == e * s);
        if n * c <= m {
            assert(e * s >= e * (n * c)) by (nonlinear_arith)
                requires
                    0 <= e,
                    s >= n * c,
            ;
            assert(e * (n * c) == n * (e * c)) by (nonlinear_arith);
            vstd::arithmetic::div_mod::lemma_div_is_ordered(n * (e * c), e * s, n);
            vstd::arithmetic::div_mod::lemma_div_multiples_vanish(e * c, n);
        } else {
            assert(s == m);
            assert(e * s >= m) by (nonlinear_arith)
                requires
                    e >= 1,
                    s == m,
                    m >= 0,
            ;
            assert(p == m);
        }
    }
}

/// Extending a saturating sum of `i` amounts, each at least `b`, by one
/// more amount at least `b` keeps it at least the saturating product
/// `(i+1) * b`.
pub proof fn lemma_sat_sum_step(total: int, v: int, i: int, b: int)
    requires
        0 <= i,
        0 <= b,
        0 <= total <= usize::MAX,
        0 <= v,
        total >= sat_mul_spec(i, b),
        v >= b,
    ensures
        sat_add_spec(total, v) >= sat_mul_spec(i + 1, b),
{
    assert((i + 1) * b == i * b + b) by (nonlinear_arith);
    if i * b > usize::MAX {
        assert(total == usize::MAX);
    } else {
        assert(total + v >= i * b + b);
    }
}

} // verus!
