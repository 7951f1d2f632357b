//! Integer square roots of promoted values, by Babylonian iteration.
use vstd::prelude::*;

use crate::layout::{Layout, Promotion};
use crate::math::div_trunc;

verus! {

/// `s` is the integer square root of `n`: the greatest non-negative integer whose square
/// does not exceed `n`.
pub open spec fn is_isqrt(n: int, s: int) -> bool {
    0 <= s && s * s <= n && n < (s + 1) * (s + 1)
}

/// The integer square root of `n >= 0`.
pub open spec fn isqrt(n: int) -> int {
    choose|s: int| is_isqrt(n, s)
}

/// Every `n >= 0` has an integer square root.
pub proof fn lemma_isqrt_exists(n: int) -> (s: int)
    requires
        n >= 0,
    ensures
        is_isqrt(n, s),
    decreases n,
{
    if n == 0 {
        0
    } else {
        let t = lemma_isqrt_exists(n - 1);
        if (t + 1) * (t + 1) <= n {
            assert(n < (t + 2) * (t + 2)) by (nonlinear_arith)
                requires
                    n - 1 < (t + 1) * (t + 1),
                    t >= 0,
            ;
            t + 1
        } else {
            t
        }
    }
}

/// The integer square root is unique.
pub proof fn lemma_isqrt_unique(n: int, s: int, t: int)
    requires
        is_isqrt(n, s),
        is_isqrt(n, t),
    ensures
        s == t,
{
    if s < t {
        assert((s + 1) * (s + 1) <= t * t) by (nonlinear_arith)
            requires
                0 <= s + 1 <= t,
        ;
    } else if t < s {
        assert((t + 1) * (t + 1) <= s * s) by (nonlinear_arith)
            requires
                0 <= t + 1 <= s,
        ;
    }
}

/// `isqrt(n)` is the integer square root `s` of `n`.
pub proof fn lemma_isqrt(n: int, s: int)
    requires
        is_isqrt(n, s),
    ensures
        isqrt(n) == s,
        is_isqrt(n, isqrt(n)),
{
    lemma_isqrt_unique(n, s, isqrt(n));
}

/// One Babylonian step towards the square root of `n` from `x`:
/// `floor((floor(n / x) + x) / 2)`.
pub open spec fn babylonian_step(n: int, x: int) -> int {
    (n / x + x) / 2
}

/// A step never falls below the root: `floor(n / x) + x >= 2 * s`, as
/// `n >= s^2 >= x * (2 * s - x)`.
proof fn lemma_step_at_least_root(n: int, x: int, s: int)
    requires
        is_isqrt(n, s),
        x > 0,
    ensures
        babylonian_step(n, x) >= s,
{
    if x < 2 * s {
        assert(n >= x * (2 * s - x)) by (nonlinear_arith)
            requires
                n >= s * s,
                x > 0,
        ;
        vstd::arithmetic::div_mod::lemma_fundamental_div_mod(n, x);
        vstd::arithmetic::div_mod::lemma_mod_bound(n, x);
        assert(n / x >= 2 * s - x) by (nonlinear_arith)
            requires
                n >= x * (2 * s - x),
                n == x * (n / x) + n % x,
                0 <= n % x < x,
                x > 0,
        ;
    } else {
        assert(n / x >= 0) by (nonlinear_arith)
            requires
                n >= 0,
                x > 0,
        ;
    }
}

/// Above the root a step goes down: `floor(n / x) < x` as `n < (s + 1)^2 <= x^2`.
proof fn lemma_step_below_x(n: int, x: int, s: int)
    requires
        is_isqrt(n, s),
        x > s,
    ensures
        babylonian_step(n, x) < x,
{
    assert(n < x * x) by (nonlinear_arith)
        requires
            n < (s + 1) * (s + 1),
            x >= s + 1,
            s >= 0,
    ;
    vstd::arithmetic::div_mod::lemma_fundamental_div_mod(n, x);
    vstd::arithmetic::div_mod::lemma_mod_bound(n, x);
    assert(n / x < x) by (nonlinear_arith)
        requires
            n < x * x,
            n == x * (n / x) + n % x,
            0 <= n % x,
            x > 0,
    ;
}

/// From at or above the root, `floor(n / x) <= s + 2`.
proof fn lemma_quotient_bound(n: int, x: int, s: int)
    requires
        is_isqrt(n, s),
        x >= s,
        s >= 1,
    ensures
        0 <= n / x <= s + 2,
{
    assert(n <= s * (s + 2)) by (nonlinear_arith)
        requires
            n < (s + 1) * (s + 1),
    ;
    vstd::arithmetic::div_mod::lemma_div_is_ordered_by_denominator(n, s, x);
    vstd::arithmetic::div_mod::lemma_fundamental_div_mod(n, s);
    vstd::arithmetic::div_mod::lemma_mod_bound(n, s);
    assert(n / s <= s + 2) by (nonlinear_arith)
        requires
            n <= s * (s + 2),
            n == s * (n / s) + n % s,
            0 <= n % s,
            s > 0,
    ;
    assert(n / x >= 0) by (nonlinear_arith)
        requires
            n >= 0,
            x > 0,
    ;
}

/// One Babylonian step, computed in the layout; the quotient must fit it.
fn babylonian_next<L: Layout>(n: L::Promotion, x: L) -> (r: L)
    requires
        n.pval() >= 0,
        x.val() > 0,
        n.pval() / x.val() <= L::hi(),
    ensures
        r.val() == babylonian_step(n.pval(), x.val()),
{
    proof {
        L::lemma_promotion(x);
        L::lemma_bounds();
        assert(n.pval() / x.val() >= 0) by (nonlinear_arith)
            requires
                n.pval() >= 0,
                x.val() > 0,
        ;
    }
    let quotient = n.div_l(x);
    let q = quotient.try_into_layout().unwrap();
    proof {
        L::lemma_promotion(q);
    }
    q.avg_floor(x)
}

/// Checked integer square root of a non-negative promoted value, by Babylonian iteration
/// from the greatest value of the layout, which is at least the root. The value must be
/// below `(MAX - 1)^2`, so that the root and its neighbours fit the layout.
pub(crate) fn sqrt<L: Layout>(n: L::Promotion) -> (r: L)
    requires
        0 <= n.pval() < (L::hi() - 1) * (L::hi() - 1),
    ensures
        is_isqrt(n.pval(), r.val()),
{
    proof {
        L::lemma_bounds();
    }
    let four_l = L::from_i64(4);
    let zero_l = L::from_i64(0);
    let four = L::Promotion::from_layout(four_l);
    let zero = L::Promotion::from_layout(zero_l);
    proof {
        L::lemma_promotion(four_l);
        L::lemma_promotion(zero_l);
    }
    if n.lt_p(&four) {
        if zero.lt_p(&n) {
            return L::from_i64(1);
        } else {
            return L::from_i64(0);
        }
    }
    let ghost v = n.pval();
    let ghost s = lemma_isqrt_exists(v);
    proof {
        assert(s < L::hi() - 1) by (nonlinear_arith)
            requires
                s * s <= v,
                v < (L::hi() - 1) * (L::hi() - 1),
                s >= 0,
                L::hi() >= 2,
        ;
        assert(s >= 2) by (nonlinear_arith)
            requires
                v >= 4,
                v < (s + 1) * (s + 1),
                s >= 0,
        ;
        assert(v / L::hi() <= L::hi()) by (nonlinear_arith)
            requires
                0 <= v < (L::hi() - 1) * (L::hi() - 1),
                L::hi() >= 2,
        ;
    }
    // https://en.wikipedia.org/wiki/Methods_of_computing_square_roots#Babylonian_method
    let mut x = L::max_l();
    let mut xn = babylonian_next::<L>(n, x);
    proof {
        lemma_step_at_least_root(v, x.val(), s);
    }
    while x.lt_l(xn)
        invariant
            v == n.pval(),
            is_isqrt(v, s),
            2 <= s < L::hi() - 1,
            s <= x.val(),
            s <= xn.val(),
            xn.val() == babylonian_step(v, x.val()),
        decreases (if x.val() == s {
            1int
        } else {
            0int
        }),
    {
        proof {
            if x.val() > s {
                lemma_step_below_x(v, x.val(), s);
            }
            lemma_quotient_bound(v, xn.val(), s);
            lemma_step_at_least_root(v, xn.val(), s);
        }
        x = xn;
        xn = babylonian_next::<L>(n, x);
    }
    while xn.lt_l(x)
        invariant
            v == n.pval(),
            is_isqrt(v, s),
            2 <= s < L::hi() - 1,
            s <= x.val(),
            s <= xn.val(),
            xn.val() == babylonian_step(v, x.val()),
        decreases x.val(),
    {
        proof {
            lemma_quotient_bound(v, xn.val(), s);
            lemma_step_at_least_root(v, xn.val(), s);
        }
        x = xn;
        xn = babylonian_next::<L>(n, x);
    }
    proof {
        if x.val() > s {
            lemma_step_below_x(v, x.val(), s);
        }
    }
    x
}

} // verus!
