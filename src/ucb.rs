//! The UCB1 bandit score on integer statistics.
//!
//! Values are counted in hundredths of a unit (centipawns), so the
//! score of a child is `floor(value_sum / visits) + floor(100 * sqrt(L / visits))`
//! where `L = floor(log2(parent_visits))` and the exploration constant is one.

use vstd::prelude::*;
use vstd::arithmetic::power2::*;
use vstd::arithmetic::div_mod::*;
use vstd::bits::*;
use vstd::std_specs::bits::*;

verus! {

/// Hundredths per unit of value: the exploration term is scaled by it.
pub const VALUE_SCALE: u64 = 100;

/// `floor(log2(n))` for `n >= 1` (and zero for `n == 0`).
pub open spec fn log2_floor(n: nat) -> nat
    decreases n,
{
    if n <= 1 {
        0
    } else {
        1 + log2_floor(n / 2)
    }
}

/// `floor(sqrt(x))`.
pub open spec fn sqrt_floor(x: nat) -> nat
    decreases x,
{
    if x == 0 {
        0
    } else {
        let r = sqrt_floor((x - 1) as nat);
        if (r + 1) * (r + 1) <= x {
            r + 1
        } else {
            r
        }
    }
}

/// The exploration term `floor(100 * sqrt(log2_floor(parent) / visits))`.
pub open spec fn exploration_spec(visits: nat, parent_visits: nat) -> nat
    recommends
        visits >= 1,
{
    sqrt_floor(((VALUE_SCALE * VALUE_SCALE) as nat * log2_floor(parent_visits) / visits) as nat)
}

/// The UCB1 score of a child visited `visits` times with accumulated
/// `value_sum`, under a parent visited `parent_visits` times.
pub open spec fn ucb1_spec(visits: nat, value_sum: int, parent_visits: nat) -> int
    recommends
        visits >= 1,
{
    value_sum / (visits as int) + exploration_spec(visits, parent_visits) as int
}

/// A child visited once, under a parent visited once, scores exactly its
/// value: `log2(1)` is zero, so the exploration term vanishes.
pub proof fn lemma_ucb1_single_visit(v: int)
    ensures
        ucb1_spec(1, v, 1) == v,
{
    assert(log2_floor(1) == 0);
    assert(sqrt_floor(0) == 0);
    assert(exploration_spec(1, 1) == 0);
}

proof fn lemma_log2_bracket(n: nat, k: nat)
    requires
        pow2(k) <= n < pow2(k + 1),
    ensures
        log2_floor(n) == k,
    decreases k,
{
    lemma_pow2_unfold(k + 1);
    if k == 0 {
        lemma2_to64();
    } else {
        lemma_pow2_unfold(k);
        lemma_log2_bracket(n / 2, (k - 1) as nat);
    }
}

/// `floor(log2(n))` by counting leading zeros.
pub fn floor_log2(n: u32) -> (r: u32)
    requires
        n >= 1,
    ensures
        r == log2_floor(n as nat),
        pow2(r as nat) <= n < pow2(r as nat + 1),
        r <= 31,
{
    let lz = n.leading_zeros();
    proof {
        axiom_u32_leading_zeros(n);
    }
    let r: u32 = 31 - lz;
    proof {
        assert((n >> r) & 1u32 != 0u32 ==> n >= (1u32 << r)) by (bit_vector)
            requires
                r < 32,
        ;
        lemma_u32_pow2_no_overflow(r as nat);
        lemma_u32_shl_is_mul(1, r);
        lemma_pow2_unfold(r as nat + 1);
        if r < 31 {
            let s: u32 = (r + 1) as u32;
            assert(n >> s == 0u32 ==> n < (1u32 << s)) by (bit_vector)
                requires
                    s < 32,
            ;
            lemma_u32_pow2_no_overflow(s as nat);
            lemma_u32_shl_is_mul(1, s);
        } else {
            lemma2_to64();
        }
        lemma_log2_bracket(n as nat, r as nat);
    }
    r
}


proof fn lemma_sqrt_floor_bracket(x: nat)
    ensures
        sqrt_floor(x) * sqrt_floor(x) <= x < (sqrt_floor(x) + 1) * (sqrt_floor(x) + 1),
    decreases x,
{
    if x > 0 {
        lemma_sqrt_floor_bracket((x - 1) as nat);
        let r = sqrt_floor((x - 1) as nat);
        assert((r + 2) * (r + 2) == (r + 1) * (r + 1) + 2 * r + 3) by (nonlinear_arith);
        let s = sqrt_floor(x);
        if (r + 1) * (r + 1) <= x {
            assert(s == r + 1);
            assert(s * s <= x < (s + 1) * (s + 1)) by (nonlinear_arith)
                requires
                    s == r + 1,
                    (r + 1) * (r + 1) <= x,
                    x - 1 < (r + 1) * (r + 1),
            ;
        } else {
            assert(s == r);
        }
    } else {
        assert(sqrt_floor(0) == 0);
        assert(0 * 0 <= 0 < 1 * 1) by (nonlinear_arith);
    }
}

proof fn lemma_sqrt_floor_unique(x: nat, r: nat)
    requires
        r * r <= x < (r + 1) * (r + 1),
    ensures
        sqrt_floor(x) == r,
{
    lemma_sqrt_floor_bracket(x);
    let s = sqrt_floor(x);
    if s < r {
        assert((s + 1) * (s + 1) <= r * r) by (nonlinear_arith)
            requires
                s + 1 <= r,
        ;
    } else if s > r {
        assert((r + 1) * (r + 1) <= s * s) by (nonlinear_arith)
            requires
                r + 1 <= s,
        ;
    }
}

/// `floor(sqrt(x))` for the small arguments that the exploration term takes.
fn isqrt(x: u64) -> (r: u64)
    requires
        x <= 1_000_000,
    ensures
        r == sqrt_floor(x as nat),
        r <= 1000,
{
    let mut r: u64 = 0;
    while (r + 1) * (r + 1) <= x
        invariant
            x <= 1_000_000,
            r * r <= x,
            r <= 1000,
            (r + 1) * (r + 1) <= 1_002_001,
        decreases x - r,
    {
        assert(r + 1 <= 1000) by (nonlinear_arith)
            requires
                (r + 1) * (r + 1) <= x,
                x <= 1_000_000,
        ;
        assert(r < x) by (nonlinear_arith)
            requires
                (r + 1) * (r + 1) <= x,
        ;
        r = r + 1;
        assert((r + 1) * (r + 1) <= 1_002_001) by (nonlinear_arith)
            requires
                r <= 1000,
        ;
    }
    proof {
        lemma_sqrt_floor_unique(x as nat, r as nat);
    }
    r
}

/// `floor(w / n)` rounding towards negative infinity.
pub fn floor_div(w: i64, n: u32) -> (q: i64)
    requires
        n >= 1,
    ensures
        q == w as int / n as int,
{
    if w >= 0 {
        let q = (w as u64) / (n as u64);
        proof {
            lemma_div_is_ordered_by_denominator(w as int, 1, n as int);
        }
        q as i64
    } else {
        let m: u64 = (-(w + 1)) as u64;
        let q = m / (n as u64);
        proof {
            lemma_div_is_ordered_by_denominator(m as int, 1, n as int);
            lemma_fundamental_div_mod(m as int, n as int);
            let rem = m as int % n as int;
            assert(w as int == (-(q as int) - 1) * (n as int) + (n as int - rem - 1)) by (nonlinear_arith)
                requires
                    m as int == (n as int) * (q as int) + rem,
                    w as int == -(m as int) - 1,
            ;
            lemma_fundamental_div_mod_converse(w as int, n as int, -(q as int) - 1, n as int - rem - 1);
        }
        -(q as i64) - 1
    }
}

/// The UCB1 score `value_sum / visits + sqrt(floor_log2(parent_visits) / visits)`,
/// in hundredths, both terms rounded down.
pub fn ucb1(visits: u32, value_sum: i64, parent_visits: u32) -> (r: i128)
    requires
        visits >= 1,
        parent_visits >= 1,
    ensures
        r == ucb1_spec(visits as nat, value_sum as int, parent_visits as nat),
{
    let exploit = floor_div(value_sum, visits);
    let l = floor_log2(parent_visits);
    let x: u64 = (VALUE_SCALE * VALUE_SCALE) * (l as u64) / (visits as u64);
    proof {
        lemma_div_is_ordered_by_denominator(((VALUE_SCALE * VALUE_SCALE) * (l as u64)) as int, 1, visits as int);
    }
    let explore = isqrt(x);
    exploit as i128 + explore as i128
}

} // verus!
