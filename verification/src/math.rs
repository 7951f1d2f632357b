//! Mathematical model of fixed-point arithmetic: powers of ten, signs and
//! the three rounding modes of division.
use vstd::arithmetic::div_mod::*;
use vstd::arithmetic::mul::*;
use vstd::prelude::*;

use crate::ops::RoundMode;

verus! {

/// `10^n`.
pub open spec fn pow10(n: nat) -> nat
    decreases n,
{
    if n == 0 {
        1
    } else {
        10 * pow10((n - 1) as nat)
    }
}

/// The sign of an integer: `-1`, `0` or `1`.
pub open spec fn sgn(x: int) -> int {
    if x > 0 {
        1
    } else if x < 0 {
        -1
    } else {
        0
    }
}

/// The absolute value of an integer.
pub open spec fn abs(x: int) -> nat {
    if x < 0 {
        (-x) as nat
    } else {
        x as nat
    }
}

/// The sign of the quotient of `a` by `b`: `-1`, `0` or `1`.
pub open spec fn sgn2(a: int, b: int) -> int {
    if a == 0 || b == 0 {
        0
    } else if (a > 0) == (b > 0) {
        1
    } else {
        -1
    }
}

/// Division rounded towards zero (the quotient of Rust's `/`).
pub open spec fn div_trunc(a: int, b: int) -> int {
    if (a >= 0) == (b > 0) {
        (abs(a) / abs(b)) as int
    } else {
        -((abs(a) / abs(b)) as int)
    }
}

/// The remainder that goes with [`div_trunc`] (the result of Rust's `%`).
pub open spec fn rem_trunc(a: int, b: int) -> int {
    if a >= 0 {
        (abs(a) % abs(b)) as int
    } else {
        -((abs(a) % abs(b)) as int)
    }
}

/// `a / b` rounded towards negative infinity.
pub open spec fn div_floor(a: int, b: int) -> int {
    if b > 0 {
        a / b
    } else {
        (-a) / (-b)
    }
}

/// `a / b` rounded towards positive infinity.
pub open spec fn div_ceil(a: int, b: int) -> int {
    -div_floor(-a, b)
}

/// `a / b` rounded to the nearest integer, half-way cases away from zero.
pub open spec fn div_nearest(a: int, b: int) -> int {
    if (a >= 0) == (b > 0) {
        ((2 * abs(a) + abs(b)) / (2 * abs(b))) as int
    } else {
        -(((2 * abs(a) + abs(b)) / (2 * abs(b))) as int)
    }
}

/// `a / b` rounded as `mode` says.
pub open spec fn div_round(a: int, b: int, mode: RoundMode) -> int {
    match mode {
        RoundMode::Floor => div_floor(a, b),
        RoundMode::Ceil => div_ceil(a, b),
        RoundMode::Nearest => div_nearest(a, b),
    }
}

/// The number that a round mode stands for: `1` for `Ceil`, `-1` for `Floor`, `0` for `Nearest`.
pub open spec fn mode_sign(mode: RoundMode) -> int {
    match mode {
        RoundMode::Ceil => 1,
        RoundMode::Floor => -1,
        RoundMode::Nearest => 0,
    }
}

/// Whether a truncated quotient has to move one step away from zero to be rounded as `mode`
/// says, given the truncated remainder `r` and the divisor `b`.
pub open spec fn rounds_away(mode: RoundMode, s: int, r: int, b: int) -> bool {
    match mode {
        RoundMode::Nearest => 2 * abs(r) >= abs(b),
        _ => r != 0 && mode_sign(mode) == s,
    }
}

/// `x` clamped to `[lo, hi]`.
pub open spec fn clamp(x: int, lo: int, hi: int) -> int {
    if x < lo {
        lo
    } else if x > hi {
        hi
    } else {
        x
    }
}

/// The number of decimal digits of `n` (none for `0`).
pub open spec fn ndigits(n: nat) -> nat
    decreases n,
{
    if n == 0 {
        0
    } else {
        1 + ndigits(n / 10)
    }
}

/// The least power of ten that is at least `n` (and at least `1`).
pub open spec fn next_pow10(n: nat) -> nat {
    if n == 0 {
        1
    } else {
        pow10(ndigits((n - 1) as nat))
    }
}

/// `n` has exactly `k` digits when `10^(k-1) <= n < 10^k`.
pub proof fn lemma_ndigits(n: nat, k: nat)
    requires
        n < pow10(k),
        k == 0 || pow10((k - 1) as nat) <= n,
    ensures
        ndigits(n) == k,
    decreases k,
{
    if k == 0 {
        assert(n == 0);
    } else {
        lemma_pow10_pos((k - 1) as nat);
        if k == 1 {
            assert(1 <= n < 10);
            assert(n / 10 == 0);
            assert(ndigits(0) == 0);
        } else {
            let m = n / 10;
            assert(pow10((k - 1) as nat) == 10 * pow10((k - 2) as nat));
            assert(pow10(k) == 10 * pow10((k - 1) as nat));
            assert(m < pow10((k - 1) as nat));
            assert(pow10((k - 2) as nat) <= m);
            lemma_ndigits(m, (k - 1) as nat);
        }
    }
}

/// `10^(ndigits(n) - 1) <= n < 10^ndigits(n)`.
pub proof fn lemma_ndigits_bounds(n: nat)
    ensures
        n < pow10(ndigits(n)),
        n > 0 ==> ndigits(n) > 0 && pow10((ndigits(n) - 1) as nat) <= n,
    decreases n,
{
    if n > 0 {
        lemma_ndigits_bounds(n / 10);
        let k = ndigits(n / 10);
        assert(ndigits(n) == k + 1);
        assert(pow10(k + 1) == 10 * pow10(k));
        if n / 10 > 0 {
            assert(pow10(k) == 10 * pow10((k - 1) as nat));
        } else {
            assert(k == 0);
        }
    }
}

/// The least power of ten that is at least `n` is indeed at least `n`, and the power of
/// ten just below it is below `n`.
pub proof fn lemma_next_pow10(n: nat)
    ensures
        next_pow10(n) >= n,
        next_pow10(n) >= 1,
        forall|k: nat| pow10(k) >= n ==> #[trigger] pow10(k) >= next_pow10(n),
{
    if n == 0 {
        assert forall|k: nat| pow10(k) >= n implies #[trigger] pow10(k) >= next_pow10(n) by {
            lemma_pow10_pos(k);
        }
    } else {
        lemma_ndigits_bounds((n - 1) as nat);
        let d = ndigits((n - 1) as nat);
        assert forall|k: nat| pow10(k) >= n implies #[trigger] pow10(k) >= next_pow10(n) by {
            if k < d {
                lemma_pow10_monotonic(k, (d - 1) as nat);
            } else {
                lemma_pow10_monotonic(d, k);
            }
        }
        lemma_pow10_pos(d);
    }
}

pub proof fn lemma_pow10_pos(n: nat)
    ensures
        pow10(n) >= 1,
    decreases n,
{
    if n > 0 {
        lemma_pow10_pos((n - 1) as nat);
    }
}

pub proof fn lemma_pow10_monotonic(m: nat, n: nat)
    requires
        m <= n,
    ensures
        pow10(m) <= pow10(n),
    decreases n,
{
    if m < n {
        lemma_pow10_monotonic(m, (n - 1) as nat);
        lemma_pow10_pos((n - 1) as nat);
    }
}

pub proof fn lemma_pow10_strict(m: nat, n: nat)
    requires
        m < n,
    ensures
        10 * pow10(m) <= pow10(n),
    decreases n,
{
    if m + 1 < n {
        lemma_pow10_strict(m, (n - 1) as nat);
        lemma_pow10_pos((n - 1) as nat);
    } else {
        lemma_pow10_pos(m);
    }
}

pub proof fn lemma_pow10_add(m: nat, n: nat)
    ensures
        pow10(m + n) == pow10(m) * pow10(n),
    decreases n,
{
    if n > 0 {
        lemma_pow10_add(m, (n - 1) as nat);
        let a = pow10(m) as int;
        let b = pow10((n - 1) as nat) as int;
        assert((m + n - 1) as nat == m + (n - 1) as nat);
        assert(pow10(m + n) == 10 * pow10((m + n - 1) as nat));
        assert(pow10(m + (n - 1) as nat) == a * b);
        assert(pow10(n) == 10 * b);
        assert(a * (10 * b) == 10 * (a * b)) by (nonlinear_arith);
    } else {
        assert(pow10(0) == 1);
        assert(m + n == m);
    }
}

/// Magnitude facts: `|a| == q * |b| + r` with `0 <= r < |b|`.
proof fn lemma_magnitudes(a: int, b: int)
    requires
        b != 0,
    ensures
        abs(a) == (abs(a) / abs(b)) * abs(b) + abs(a) % abs(b),
        0 <= abs(a) % abs(b) < abs(b),
        0 <= abs(a) / abs(b) <= abs(a),
        a == 0 ==> abs(a) / abs(b) == 0 && abs(a) % abs(b) == 0,
{
    let x = abs(a) as int;
    let d = abs(b) as int;
    lemma_fundamental_div_mod(x, d);
    lemma_mod_pos_bound(x, d);
    lemma_div_pos_is_pos(x, d);
    lemma_mul_is_commutative(d, x / d);
    lemma_div_is_ordered_by_denominator(x, 1, d);
    lemma_div_basics(x);
    if a == 0 {
        lemma_div_of0(d);
        lemma_small_mod(0, d as nat);
    }
}

/// The truncated quotient and remainder put the dividend back together.
pub proof fn lemma_trunc_parts(a: int, b: int)
    requires
        b != 0,
    ensures
        a == div_trunc(a, b) * b + rem_trunc(a, b),
        abs(rem_trunc(a, b)) < abs(b),
        rem_trunc(a, b) == 0 || (rem_trunc(a, b) > 0) == (a > 0),
        abs(div_trunc(a, b)) <= abs(a),
        abs(div_trunc(a, b)) == abs(a) / abs(b),
        abs(rem_trunc(a, b)) == abs(a) % abs(b),
        div_trunc(a, b) == 0 || (div_trunc(a, b) > 0) == ((a > 0) == (b > 0)),
{
    lemma_magnitudes(a, b);
    let q = (abs(a) / abs(b)) as int;
    let r = (abs(a) % abs(b)) as int;
    if a >= 0 && b > 0 {
        assert(a == q * b + r);
    } else if a >= 0 && b < 0 {
        assert(a == (-q) * b + r) by (nonlinear_arith)
            requires
                a == q * (-b) + r,
        ;
    } else if a < 0 && b > 0 {
        assert(a == (-q) * b + (-r)) by (nonlinear_arith)
            requires
                -a == q * b + r,
        ;
    } else {
        assert(a == q * b + (-r)) by (nonlinear_arith)
            requires
                -a == q * (-b) + r,
        ;
    }
}

/// A division rounded as `mode` says is the truncated division, moved one step away from
/// zero exactly when [`rounds_away`] holds.
pub proof fn lemma_div_round_trunc(a: int, b: int, mode: RoundMode)
    requires
        b != 0,
    ensures
        div_round(a, b, mode) == div_trunc(a, b) + (if rounds_away(
            mode,
            sgn2(a, b),
            rem_trunc(a, b),
            b,
        ) {
            sgn2(a, b)
        } else {
            0
        }),
{
    lemma_magnitudes(a, b);
    let q = (abs(a) / abs(b)) as int;
    let r = (abs(a) % abs(b)) as int;
    let pb = abs(b) as int;
    let pa = abs(a) as int;
    assert(abs(rem_trunc(a, b)) == r);
    match mode {
        RoundMode::Nearest => {
            let n = (2 * abs(a) + abs(b)) as int;
            let d = (2 * abs(b)) as int;
            if 2 * r >= pb {
                assert(n == (q + 1) * d + (2 * r - pb)) by (nonlinear_arith)
                    requires
                        pa == q * pb + r,
                        n == 2 * pa + pb,
                        d == 2 * pb,
                ;
                lemma_fundamental_div_mod_converse(n, d, q + 1, 2 * r - pb);
            } else {
                assert(n == q * d + (2 * r + pb)) by (nonlinear_arith)
                    requires
                        pa == q * pb + r,
                        n == 2 * pa + pb,
                        d == 2 * pb,
                ;
                lemma_fundamental_div_mod_converse(n, d, q, 2 * r + pb);
            }
        },
        _ => {
            // Floor division of x by |b|, for x = |a| and x = -|a|.
            lemma_fundamental_div_mod_converse(pa, pb, q, r);
            if r != 0 {
                assert(-pa == (-q - 1) * pb + (pb - r)) by (nonlinear_arith)
                    requires
                        pa == q * pb + r,
                ;
                lemma_fundamental_div_mod_converse(-pa, pb, -q - 1, pb - r);
            } else {
                assert(-pa == (-q) * pb + 0) by (nonlinear_arith)
                    requires
                        pa == q * pb + r,
                        r == 0,
                ;
                lemma_fundamental_div_mod_converse(-pa, pb, -q, 0);
            }
            if a >= 0 && b > 0 {
                assert(a == pa && -a == -pa);
            } else if a >= 0 && b < 0 {
                assert(a == pa && -a == -pa);
            } else if a < 0 && b > 0 {
                assert(a == -pa && -a == pa);
            } else {
                assert(a == -pa && -a == pa);
            }
        },
    }
}

/// The truncated quotient stays in a two's complement range, except for `lo / -1`.
pub proof fn lemma_div_trunc_in_range(a: int, b: int, lo: int, hi: int)
    requires
        lo == -hi - 1,
        hi >= 1,
        lo <= a <= hi,
        b != 0,
        !(a == lo && b == -1),
    ensures
        lo <= div_trunc(a, b) <= hi,
        lo <= rem_trunc(a, b) <= hi,
{
    lemma_magnitudes(a, b);
    lemma_trunc_parts(a, b);
    if abs(b) == 1 {
        lemma_div_basics(abs(a) as int);
    } else {
        lemma_div_is_ordered_by_denominator(abs(a) as int, 2, abs(b) as int);
    }
}

/// Rounding moves the truncated quotient at most one step away from zero.
pub proof fn lemma_div_round_bounds(a: int, b: int, mode: RoundMode)
    requires
        b != 0,
    ensures
        abs(div_trunc(a, b)) <= abs(div_round(a, b, mode)) <= abs(div_trunc(a, b)) + 1,
        div_round(a, b, mode) == 0 || sgn(div_round(a, b, mode)) == sgn2(a, b),
        div_trunc(a, b) == 0 || sgn(div_trunc(a, b)) == sgn2(a, b),
        abs(div_trunc(a, b)) <= abs(a),
{
    lemma_div_round_trunc(a, b, mode);
    lemma_trunc_parts(a, b);
    lemma_magnitudes(a, b);
}

} // verus!
