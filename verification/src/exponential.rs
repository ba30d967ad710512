//! That the fixed-point exponential is the exponential: what it gains or loses
//! over any distance, up to a stated error.
//!
//! A function that falls by no more than its value times the distance, and by no
//! less than its value at the end times the distance, over every distance, is
//! `exp(-x)` up to a factor.
use vstd::prelude::*;

use crate::lmsr::{
    decay, exp_of, lemma_decay_antitone, lemma_exp_monotone, lemma_exp_zero, series, term, times,
    ONE, TERMS,
};

verus! {

/// What term `k` loses at most by rounding on the way up.
spec fn slack_below(k: nat) -> int {
    if k <= 1 {
        0
    } else if k == 2 {
        1
    } else if k == 3 {
        2
    } else {
        3
    }
}

/// What term `k` gains at most by rounding on the way up.
spec fn slack_above(k: nat) -> int {
    if k <= 1 {
        0
    } else if k == 2 {
        4
    } else if k == 3 {
        8
    } else {
        10
    }
}

/// A term times its divisor is what was divided, up to the divisor.
proof fn lemma_term_division(x: int, k: nat)
    requires
        x >= 0,
        k >= 1,
    ensures
        term(x, k) >= 0,
        k * ONE * term(x, k) <= term(x, (k - 1) as nat) * x < k * ONE * (term(x, k) + 1),
    decreases k,
{
    let before = term(x, (k - 1) as nat);
    if k > 1 {
        lemma_term_division(x, (k - 1) as nat);
    }
    let d = k * ONE;
    assert(d >= ONE) by (nonlinear_arith)
        requires
            k >= 1,
            d == k * ONE,
    ;
    assert(before * x >= 0) by (nonlinear_arith)
        requires
            before >= 0,
            x >= 0,
    ;
    let t = before * x / d;
    assert(d * t <= before * x < d * (t + 1) && t >= 0) by (nonlinear_arith)
        requires
            t == before * x / d,
            d > 0,
            before * x >= 0,
    ;
}

proof fn lemma_term_nonnegative(x: int, k: nat)
    requires
        x >= 0,
    ensures
        term(x, k) >= 0,
{
    if k > 0 {
        lemma_term_division(x, k);
    }
}

proof fn lemma_term_grows(x: int, y: int, k: nat)
    requires
        0 <= x <= y,
    ensures
        term(x, k) <= term(y, k),
    decreases k,
{
    if k > 0 {
        let (p, r) = (term(x, (k - 1) as nat), term(y, (k - 1) as nat));
        lemma_term_grows(x, y, (k - 1) as nat);
        lemma_term_nonnegative(x, (k - 1) as nat);
        lemma_term_division(x, k);
        lemma_term_division(y, k);
        let (t, u) = (term(x, k), term(y, k));
        let d = k * ONE;
        assert(d > 0) by (nonlinear_arith)
            requires
                k >= 1,
                d == k * ONE,
        ;
        assert(p * x <= r * y) by (nonlinear_arith)
            requires
                0 <= p <= r,
                0 <= x <= y,
        ;
        assert(t <= u) by (nonlinear_arith)
            requires
                d * t <= p * x <= r * y < d * (u + 1),
                d > 0,
        ;
    }
}

/// From one argument to a larger one, a term grows by at least the distance times
/// the term before it.
proof fn lemma_term_rises(x: int, y: int, k: nat)
    requires
        0 <= x <= y <= 3 * ONE,
        k >= 1,
    ensures
        term(y, k) * ONE >= term(x, k) * ONE + (y - x) * term(x, (k - 1) as nat) - slack_below(k)
            * ONE,
    decreases k,
{
    let one = ONE as int;
    lemma_term_division(x, k);
    lemma_term_division(y, k);
    let d = y - x;
    if k == 1 {
        assert(term(x, 0) == one && term(y, 0) == one);
        assert(1 * one * term(x, 1) <= one * x < 1 * one * (term(x, 1) + 1));
        assert(1 * one * term(y, 1) <= one * y < 1 * one * (term(y, 1) + 1));
        assert(term(x, 1) == x && term(y, 1) == y);
    } else {
        let before = (k - 1) as nat;
        lemma_term_rises(x, y, before);
        lemma_term_division(x, before);
        lemma_term_nonnegative(x, (k - 2) as nat);
        lemma_term_nonnegative(y, before);
        let u = term(x, before);
        let v = term(y, before);
        let w = term(x, (k - 2) as nat);
        let (s, t) = (term(x, k), term(y, k));
        let a = slack_below(before);
        let c = slack_below(k);
        lemma_rise_step(one, x, y, u, v, w, s, t, a, c, k as int);
    }
}

proof fn lemma_rise_step(
    one: int,
    x: int,
    y: int,
    u: int,
    v: int,
    w: int,
    s: int,
    t: int,
    a: int,
    c: int,
    k: int,
)
    requires
        one > 0,
        0 <= x <= y <= 3 * one,
        k >= 2,
        u >= 0,
        w >= 0,
        a >= 0,
        3 * a + k <= c * k,
        v * one >= u * one + (y - x) * w - a * one,
        (k - 1) * one * u <= w * x,
        k * one * s <= u * x,
        v * y < k * one * (t + 1),
    ensures
        t * one >= s * one + (y - x) * u - c * one,
{
    let d = y - x;
    assert(v * one * y >= (u * one + d * w - a * one) * y) by (nonlinear_arith)
        requires
            v * one >= u * one + d * w - a * one,
            y >= 0,
    ;
    assert((u * one + d * w - a * one) * y == one * (u * y) + d * (w * y) - one * (a * y))
        by (nonlinear_arith);
    assert(u * y == u * x + u * d) by (nonlinear_arith)
        requires
            y == x + d,
    ;
    assert(d * (w * y) >= d * (w * x)) by (nonlinear_arith)
        requires
            d >= 0,
            w >= 0,
            x <= y,
    ;
    assert(d * (w * x) >= d * ((k - 1) * one * u)) by (nonlinear_arith)
        requires
            d >= 0,
            w * x >= (k - 1) * one * u,
    ;
    assert(d * ((k - 1) * one * u) == one * ((k - 1) * (d * u))) by (nonlinear_arith);
    assert(v * one * y == one * (v * y)) by (nonlinear_arith);
    assert(one * (v * y) >= one * (u * x + u * d) + one * ((k - 1) * (d * u)) - one * (a * y));
    assert(v * y >= u * x + u * d + (k - 1) * (d * u) - a * y) by (nonlinear_arith)
        requires
            one * (v * y) >= one * (u * x + u * d) + one * ((k - 1) * (d * u)) - one * (a * y),
            one > 0,
    ;
    assert(u * d + (k - 1) * (d * u) == k * (d * u)) by (nonlinear_arith);
    assert(a * y + k * one <= c * k * one) by (nonlinear_arith)
        requires
            0 <= y <= 3 * one,
            a >= 0,
            3 * a + k <= c * k,
            one > 0,
    ;
    assert(k * one * (t + 1) == k * (one * t) + k * one) by (nonlinear_arith);
    assert(k * one * s == k * (one * s)) by (nonlinear_arith);
    assert(c * k * one == k * (c * one)) by (nonlinear_arith);
    assert(k * (one * t) >= k * (one * s) + k * (d * u) - k * (c * one));
    assert(one * t >= one * s + d * u - c * one) by (nonlinear_arith)
        requires
            k * (one * t) >= k * (one * s) + k * (d * u) - k * (c * one),
            k > 0,
    ;
    assert(one * t == t * one && one * s == s * one) by (nonlinear_arith);
}

/// From one argument to a larger one, a term grows by at most the distance times
/// the term before it at the larger one.
proof fn lemma_term_limited(x: int, y: int, k: nat)
    requires
        0 <= x <= y <= 3 * ONE,
        k >= 1,
    ensures
        term(y, k) * ONE <= term(x, k) * ONE + (y - x) * term(y, (k - 1) as nat) + slack_above(k)
            * ONE,
    decreases k,
{
    let one = ONE as int;
    lemma_term_division(x, k);
    lemma_term_division(y, k);
    if k == 1 {
        assert(term(x, 0) == one && term(y, 0) == one);
        assert(1 * one * term(x, 1) <= one * x < 1 * one * (term(x, 1) + 1));
        assert(1 * one * term(y, 1) <= one * y < 1 * one * (term(y, 1) + 1));
        assert(term(x, 1) == x && term(y, 1) == y);
    } else {
        let before = (k - 1) as nat;
        lemma_term_limited(x, y, before);
        lemma_term_division(y, before);
        lemma_term_grows(x, y, before);
        lemma_term_nonnegative(x, before);
        lemma_term_nonnegative(y, (k - 2) as nat);
        lemma_limit_step(
            one,
            x,
            y,
            term(x, before),
            term(y, before),
            term(y, (k - 2) as nat),
            term(x, k),
            term(y, k),
            slack_above(before),
            slack_above(k),
            k as int,
        );
    }
}

proof fn lemma_limit_step(
    one: int,
    x: int,
    y: int,
    u: int,
    v: int,
    w: int,
    s: int,
    t: int,
    a: int,
    c: int,
    k: int,
)
    requires
        one > 0,
        0 <= x <= y <= 3 * one,
        k >= 2,
        0 <= u <= v,
        w >= 0,
        a >= 0,
        3 * a + 4 * k <= c * k,
        v * one <= u * one + (y - x) * w + a * one,
        w * y < (k - 1) * one * (v + 1),
        u * x < k * one * (s + 1),
        k * one * t <= v * y,
    ensures
        t * one <= s * one + (y - x) * v + c * one,
{
    let d = y - x;
    assert(v * one * y <= (u * one + d * w + a * one) * y) by (nonlinear_arith)
        requires
            v * one <= u * one + d * w + a * one,
            y >= 0,
    ;
    assert((u * one + d * w + a * one) * y == one * (u * y) + d * (w * y) + one * (a * y))
        by (nonlinear_arith);
    assert(d * (w * y) <= d * ((k - 1) * one * (v + 1))) by (nonlinear_arith)
        requires
            d >= 0,
            w * y <= (k - 1) * one * (v + 1),
    ;
    assert(d * ((k - 1) * one * (v + 1)) == one * ((k - 1) * (d * v) + (k - 1) * d))
        by (nonlinear_arith);
    assert(v * one * y == one * (v * y)) by (nonlinear_arith);
    assert(v * y <= u * y + ((k - 1) * (d * v) + (k - 1) * d) + a * y) by (nonlinear_arith)
        requires
            one * (v * y) <= one * (u * y) + one * ((k - 1) * (d * v) + (k - 1) * d) + one * (a
                * y),
            one > 0,
    ;
    assert(u * y == u * x + u * d) by (nonlinear_arith)
        requires
            y == x + d,
    ;
    assert(u * d <= d * v) by (nonlinear_arith)
        requires
            d >= 0,
            u <= v,
    ;
    assert(d * v + (k - 1) * (d * v) == k * (d * v)) by (nonlinear_arith);
    assert((k - 1) * d <= k * d && k * d <= 3 * k * one) by (nonlinear_arith)
        requires
            0 <= d <= 3 * one,
            k >= 2,
    ;
    assert(a * y + 3 * k * one + k * one <= c * k * one) by (nonlinear_arith)
        requires
            0 <= y <= 3 * one,
            a >= 0,
            3 * a + 4 * k <= c * k,
            one > 0,
    ;
    assert(k * one * (s + 1) == k * (one * s) + k * one) by (nonlinear_arith);
    assert(k * one * t == k * (one * t)) by (nonlinear_arith);
    assert(c * k * one == k * (c * one)) by (nonlinear_arith);
    assert(k * (one * t) <= k * (one * s) + k * (d * v) + k * (c * one));
    assert(one * t <= one * s + d * v + c * one) by (nonlinear_arith)
        requires
            k * (one * t) <= k * (one * s) + k * (d * v) + k * (c * one),
            k > 0,
    ;
    assert(one * t == t * one && one * s == s * one) by (nonlinear_arith);
}

proof fn lemma_series_rises(x: int, y: int, k: nat)
    requires
        0 <= x <= y <= 3 * ONE,
        k >= 1,
    ensures
        series(y, k) * ONE >= series(x, k) * ONE + (y - x) * series(x, (k - 1) as nat) - 3 * k
            * ONE,
        series(y, k) * ONE <= series(x, k) * ONE + (y - x) * series(y, (k - 1) as nat) + 10 * k
            * ONE,
    decreases k,
{
    lemma_term_rises(x, y, k);
    lemma_term_limited(x, y, k);
    let d = y - x;
    if k == 1 {
        assert(series(x, 1) == series(x, 0) + term(x, 1));
        assert(series(y, 1) == series(y, 0) + term(y, 1));
    } else {
        let before = (k - 1) as nat;
        lemma_series_rises(x, y, before);
        let (p, q) = (series(x, (k - 2) as nat), term(x, before));
        let (r, s) = (series(y, (k - 2) as nat), term(y, before));
        assert(d * (p + q) == d * p + d * q) by (nonlinear_arith);
        assert(d * (r + s) == d * r + d * s) by (nonlinear_arith);
    }
}

/// Two to the power of `n`.
spec fn doubled(n: nat) -> int
    decreases n,
{
    if n == 0 {
        1
    } else {
        2 * doubled((n - 1) as nat)
    }
}

proof fn lemma_term_five(x: int, k: nat)
    requires
        0 <= x <= 3 * ONE,
        k <= 5,
    ensures
        term(x, k) <= 5 * ONE,
        k <= 1 ==> term(x, k) <= 3 * ONE,
    decreases k,
{
    if k > 0 {
        lemma_term_five(x, (k - 1) as nat);
        lemma_term_division(x, k);
        lemma_term_nonnegative(x, (k - 1) as nat);
        let p = term(x, (k - 1) as nat);
        let t = term(x, k);
        let one = ONE as int;
        let i = k as int;
        if k == 1 {
            assert(p == one);
            assert(1 * one * t <= one * x);
        } else if k == 2 {
            assert(t <= 5 * one) by (nonlinear_arith)
                requires
                    2 * one * t <= p * x,
                    0 <= p <= 3 * one,
                    0 <= x <= 3 * one,
                    one > 0,
            ;
        } else {
            assert(t <= p) by (nonlinear_arith)
                requires
                    i * one * t <= p * x,
                    i >= 3,
                    p >= 0,
                    0 <= x <= 3 * one,
                    one > 0,
            ;
        }
    }
}

proof fn lemma_term_halves(x: int, n: nat)
    requires
        0 <= x <= 3 * ONE,
    ensures
        term(x, 5 + n) * doubled(n) <= 5 * ONE,
    decreases n,
{
    if n == 0 {
        lemma_term_five(x, 5);
    } else {
        let before = (n - 1) as nat;
        lemma_term_halves(x, before);
        lemma_term_division(x, 5 + n);
        lemma_term_nonnegative(x, 5 + before);
        let p = term(x, 5 + before);
        let t = term(x, 5 + n);
        let one = ONE as int;
        let k = 5 + n as int;
        assert(2 * t <= p) by (nonlinear_arith)
            requires
                k * one * t <= p * x,
                k >= 6,
                p >= 0,
                0 <= x <= 3 * one,
                one > 0,
        ;
        let m = doubled(before);
        lemma_doubled_positive(before);
        assert(t * (2 * m) <= p * m) by (nonlinear_arith)
            requires
                2 * t <= p,
                m > 0,
        ;
    }
}

proof fn lemma_doubled_positive(n: nat)
    ensures
        doubled(n) > 0,
    decreases n,
{
    if n > 0 {
        lemma_doubled_positive((n - 1) as nat);
    }
}

proof fn lemma_tail(x: int, k: nat)
    requires
        0 <= x <= 3 * ONE,
        k >= 6,
    ensures
        series(x, k) + term(x, k) <= series(x, 6) + term(x, 6),
    decreases k,
{
    if k > 6 {
        let before = (k - 1) as nat;
        lemma_tail(x, before);
        lemma_term_division(x, k);
        lemma_term_nonnegative(x, before);
        let (p, t, one) = (term(x, before), term(x, k), ONE as int);
        assert(2 * t <= p) by (nonlinear_arith)
            requires
                k * one * t <= p * x,
                k >= 6,
                p >= 0,
                0 <= x <= 3 * one,
                one > 0,
        ;
    }
}

/// Twenty-seven above nothing, `exp(-x)` is still one of the smallest unit.
pub proof fn lemma_decay_lasts()
    ensures
        decay(27 * ONE) >= 1,
{
    let one = ONE as int;
    let far = 27 * one;
    let x = far / 16;
    assert(x == 1_687_500_000_000);
    assert(term(x, 0) == 1_000_000_000_000);
    assert(term(x, 1) == 1_687_500_000_000) by {
        assert(term(x, 1) == term(x, 0) * x / (1 * one));
    }
    assert(term(x, 2) == 1_423_828_125_000) by {
        assert(term(x, 2) == term(x, 1) * x / (2 * one));
    }
    assert(term(x, 3) == 800_903_320_312) by {
        assert(term(x, 3) == term(x, 2) * x / (3 * one));
    }
    assert(term(x, 4) == 337_881_088_256) by {
        assert(term(x, 4) == term(x, 3) * x / (4 * one));
    }
    assert(term(x, 5) == 114_034_867_286) by {
        assert(term(x, 5) == term(x, 4) * x / (5 * one));
    }
    assert(term(x, 6) == 32_072_306_424) by {
        assert(term(x, 6) == term(x, 5) * x / (6 * one));
    }
    assert(series(x, 6) == 5_396_219_707_278) by {
        reveal_with_fuel(series, 7);
    }
    lemma_tail(x, TERMS as nat);
    lemma_term_nonnegative(x, TERMS as nat);
    lemma_exp_monotone(0, x);
    lemma_exp_zero();
    let e = exp_of(x);
    let root = one * one / e;
    assert(root >= 184_000_000_000) by (nonlinear_arith)
        requires
            root == one * one / e,
            one <= e <= 5_430_000_000_000,
            one == 1_000_000_000_000,
    ;
    let p2 = times(root, root);
    assert(p2 >= 33_856_000_000) by (nonlinear_arith)
        requires
            p2 == root * root / one,
            root >= 184_000_000_000,
            one == 1_000_000_000_000,
    ;
    let p4 = times(p2, p2);
    assert(p4 >= 1_146_228_736) by (nonlinear_arith)
        requires
            p4 == p2 * p2 / one,
            p2 >= 33_856_000_000,
            one == 1_000_000_000_000,
    ;
    let p8 = times(p4, p4);
    assert(p8 >= 1_313_840) by (nonlinear_arith)
        requires
            p8 == p4 * p4 / one,
            p4 >= 1_146_228_736,
            one == 1_000_000_000_000,
    ;
    let p16 = times(p8, p8);
    assert(p16 >= 1) by (nonlinear_arith)
        requires
            p16 == p8 * p8 / one,
            p8 >= 1_313_840,
            one == 1_000_000_000_000,
    ;
}

/// From one argument to a larger one, up to three, the exponential grows by at
/// least the distance times its value at the smaller and at most the distance
/// times its value at the larger.
pub proof fn lemma_exp_step(x: int, y: int)
    requires
        0 <= x <= y <= 3 * ONE,
    ensures
        exp_of(y) * ONE >= exp_of(x) * (ONE + y - x) - 560 * ONE,
        exp_of(y) * ONE <= exp_of(x) * ONE + (y - x) * exp_of(y) + 400 * ONE,
{
    let one = ONE as int;
    let d = y - x;
    lemma_series_rises(x, y, 40);
    lemma_term_halves(x, 35);
    lemma_term_nonnegative(x, 40);
    lemma_term_nonnegative(y, 40);
    let last = term(x, 40);
    let end = term(y, 40);
    assert(doubled(35) == 34_359_738_368) by {
        reveal_with_fuel(doubled, 36);
    }
    assert(last <= 146) by (nonlinear_arith)
        requires
            last * 34_359_738_368 <= 5_000_000_000_000,
    ;
    let p = series(x, 39);
    let q = series(y, 39);
    assert(exp_of(x) == p + last && exp_of(y) == q + end);
    assert(d * (p + last) == d * p + d * last) by (nonlinear_arith);
    assert(d * (q + end) == d * q + d * end) by (nonlinear_arith);
    assert(0 <= d * last <= 438 * one) by (nonlinear_arith)
        requires
            0 <= d <= 3 * one,
            0 <= last <= 146,
            one > 0,
    ;
    assert(d * end >= 0) by (nonlinear_arith)
        requires
            d >= 0,
            end >= 0,
    ;
    assert((p + last) * (one + d) == (p + last) * one + d * (p + last)) by (nonlinear_arith);
}

proof fn lemma_root_step(x: int, y: int)
    requires
        0 <= x <= y <= 3 * ONE,
    ensures
        ({
            let p = ONE * ONE / exp_of(x);
            let r = ONE * ONE / exp_of(y);
            &&& 0 <= r <= p <= ONE
            &&& r * (ONE + (y - x)) <= (p + 561) * ONE
            &&& r * ONE >= p * (ONE - (y - x)) - 401 * ONE
        }),
{
    let one = ONE as int;
    let d = y - x;
    lemma_exp_monotone(x, y);
    lemma_exp_step(x, y);
    let (e, f) = (exp_of(x), exp_of(y));
    let c = one * one;
    let p = c / e;
    let r = c / f;
    assert(p * e <= c < (p + 1) * e && 0 <= p <= one) by (nonlinear_arith)
        requires
            p == c / e,
            c == one * one,
            e >= one,
            one > 0,
    ;
    assert(r * f <= c < (r + 1) * f && 0 <= r <= one) by (nonlinear_arith)
        requires
            r == c / f,
            c == one * one,
            f >= one,
            one > 0,
    ;
    assert(r <= p) by (nonlinear_arith)
        requires
            r * f <= c < (p + 1) * e,
            0 < e <= f,
            r >= 0,
    ;
    // r * e * (one + d) <= r * (f * one + 560 * one) <= c * one + 560 * one * r
    assert(r * (e * (one + d)) <= r * (f * one + 560 * one)) by (nonlinear_arith)
        requires
            e * (one + d) <= f * one + 560 * one,
            r >= 0,
    ;
    assert(r * (f * one + 560 * one) == one * (r * f) + 560 * (one * r)) by (nonlinear_arith);
    assert(one * (r * f) <= one * ((p + 1) * e)) by (nonlinear_arith)
        requires
            r * f <= (p + 1) * e,
            one > 0,
    ;
    assert(one * r <= one * e) by (nonlinear_arith)
        requires
            r <= one <= e,
            one > 0,
    ;
    assert(e * (r * (one + d)) <= e * ((p + 561) * one)) by (nonlinear_arith)
        requires
            r * (e * (one + d)) <= one * ((p + 1) * e) + 560 * (one * e),
    ;
    assert(r * (one + d) <= (p + 561) * one) by (nonlinear_arith)
        requires
            e * (r * (one + d)) <= e * ((p + 561) * one),
            e > 0,
    ;
    // (r + 1) * f * one >= p * e * one >= p * (f * (one - d) - 400 * one)
    assert(e * one >= f * (one - d) - 400 * one) by (nonlinear_arith)
        requires
            f * one <= e * one + d * f + 400 * one,
    ;
    assert(p * (e * one) >= p * (f * (one - d) - 400 * one)) by (nonlinear_arith)
        requires
            e * one >= f * (one - d) - 400 * one,
            p >= 0,
    ;
    assert(one * ((r + 1) * f) >= one * (p * e)) by (nonlinear_arith)
        requires
            p * e <= (r + 1) * f,
            one > 0,
    ;
    assert(p * (e * one) == one * (p * e)) by (nonlinear_arith);
    assert(p * (f * (one - d) - 400 * one) == f * (p * (one - d)) - 400 * (p * one))
        by (nonlinear_arith);
    assert(p * one <= f * one) by (nonlinear_arith)
        requires
            p <= one <= f,
            one > 0,
    ;
    assert(f * ((r + 1) * one) >= f * (p * (one - d) - 400 * one)) by (nonlinear_arith)
        requires
            one * ((r + 1) * f) >= f * (p * (one - d)) - 400 * (f * one),
    ;
    assert((r + 1) * one >= p * (one - d) - 400 * one) by (nonlinear_arith)
        requires
            f * ((r + 1) * one) >= f * (p * (one - d) - 400 * one),
            f > 0,
    ;
    assert((r + 1) * one == r * one + one) by (nonlinear_arith);
}

proof fn lemma_square(p: int) -> (q: int)
    requires
        0 <= p <= ONE,
    ensures
        q == times(p, p),
        q * ONE <= p * p < (q + 1) * ONE,
        0 <= q <= p,
{
    let q = p * p / (ONE as int);
    assert(q * ONE <= p * p < (q + 1) * ONE && 0 <= q <= p) by (nonlinear_arith)
        requires
            q == p * p / (ONE as int),
            0 <= p <= ONE,
            ONE > 0,
    ;
    q
}

/// Squaring two factors doubles the distance between their logarithms.
proof fn lemma_square_step(p: int, r: int, d: int, c: int, e: int)
    requires
        0 <= r <= p <= ONE,
        d >= 0,
        0 <= c <= 1_000_000,
        0 <= e <= 1_000_000,
        r * (ONE + d) <= (p + c) * ONE,
        r * ONE >= p * (ONE - d) - e * ONE,
    ensures
        0 <= times(r, r) <= times(p, p) <= ONE,
        times(r, r) * (ONE + 2 * d) <= (times(p, p) + 2 * c + 2) * ONE,
        times(r, r) * ONE >= times(p, p) * (ONE - 2 * d) - (2 * e + 1) * ONE,
{
    let one = ONE as int;
    let q = lemma_square(p);
    let s = lemma_square(r);
    assert(r * r <= p * p) by (nonlinear_arith)
        requires
            0 <= r <= p,
    ;
    assert(s <= q) by (nonlinear_arith)
        requires
            s * one <= r * r,
            r * r <= p * p,
            p * p < (q + 1) * one,
            one > 0,
    ;
    lemma_square_above(one, p, r, d, c, q, s);
    lemma_square_below(one, p, r, d, e, q, s);
}

proof fn lemma_square_above(one: int, p: int, r: int, d: int, c: int, q: int, s: int)
    requires
        one == 1_000_000_000_000,
        0 <= r <= p <= one,
        d >= 0,
        0 <= c <= 1_000_000,
        r * (one + d) <= (p + c) * one,
        p * p < (q + 1) * one,
        0 <= s,
        s * one <= r * r,
    ensures
        s * (one + 2 * d) <= (q + 2 * c + 2) * one,
{
    let x = r * (one + d);
    let y = (p + c) * one;
    assert(x * x <= y * y) by (nonlinear_arith)
        requires
            0 <= x <= y,
    ;
    assert(x >= 0) by (nonlinear_arith)
        requires
            x == r * (one + d),
            r >= 0,
            one + d >= 0,
    ;
    assert(x * x == (r * r) * ((one + d) * (one + d))) by (nonlinear_arith)
        requires
            x == r * (one + d),
    ;
    assert(y * y == ((p + c) * (p + c)) * (one * one)) by (nonlinear_arith)
        requires
            y == (p + c) * one,
    ;
    assert((one + d) * (one + d) >= one * (one + 2 * d)) by (nonlinear_arith);
    assert((r * r) * (one * (one + 2 * d)) <= (r * r) * ((one + d) * (one + d)))
        by (nonlinear_arith)
        requires
            (one + d) * (one + d) >= one * (one + 2 * d),
            r * r >= 0,
    ;
    assert(r * r >= 0) by (nonlinear_arith);
    let z = (p + c) * (p + c);
    assert(one * ((r * r) * (one + 2 * d)) <= one * (z * one)) by (nonlinear_arith)
        requires
            (r * r) * (one * (one + 2 * d)) <= z * (one * one),
    ;
    assert((r * r) * (one + 2 * d) <= z * one) by (nonlinear_arith)
        requires
            one * ((r * r) * (one + 2 * d)) <= one * (z * one),
            one > 0,
    ;
    assert((s * one) * (one + 2 * d) <= (r * r) * (one + 2 * d)) by (nonlinear_arith)
        requires
            s * one <= r * r,
            one + 2 * d >= 0,
    ;
    assert(one * (s * (one + 2 * d)) == (s * one) * (one + 2 * d)) by (nonlinear_arith);
    assert(s * (one + 2 * d) <= z) by (nonlinear_arith)
        requires
            one * (s * (one + 2 * d)) <= z * one,
            one > 0,
    ;
    assert(z == p * p + 2 * (p * c) + c * c) by (nonlinear_arith)
        requires
            z == (p + c) * (p + c),
    ;
    assert(p * c <= c * one) by (nonlinear_arith)
        requires
            p <= one,
            c >= 0,
    ;
    assert(c * c <= one) by (nonlinear_arith)
        requires
            0 <= c <= 1_000_000,
            one == 1_000_000_000_000,
    ;
}

proof fn lemma_square_below(one: int, p: int, r: int, d: int, e: int, q: int, s: int)
    requires
        one == 1_000_000_000_000,
        0 <= r <= p <= one,
        d >= 0,
        0 <= e,
        r * one >= p * (one - d) - e * one,
        0 <= q,
        q * one <= p * p,
        0 <= s,
        r * r < (s + 1) * one,
    ensures
        s * one >= q * (one - 2 * d) - (2 * e + 1) * one,
{
    if one - 2 * d <= 0 {
        assert(q * (one - 2 * d) <= 0) by (nonlinear_arith)
            requires
                q >= 0,
                one - 2 * d <= 0,
        ;
        assert(s * one >= 0) by (nonlinear_arith)
            requires
                s >= 0,
                one > 0,
        ;
    } else {
        let a = p * (one - d);
        assert(0 <= a <= p * one) by (nonlinear_arith)
            requires
                a == p * (one - d),
                p >= 0,
                0 <= d <= one,
        ;
        let f = one - 2 * d;
        assert((one - d) * (one - d) >= one * f) by (nonlinear_arith)
            requires
                f == one - 2 * d,
        ;
        // q * one * f * one <= p * p * one * f <= a * a
        assert(a * a == (p * p) * ((one - d) * (one - d))) by (nonlinear_arith)
            requires
                a == p * (one - d),
        ;
        assert(p * p >= 0) by (nonlinear_arith);
        assert((p * p) * (one * f) <= a * a) by (nonlinear_arith)
            requires
                a * a == (p * p) * ((one - d) * (one - d)),
                (one - d) * (one - d) >= one * f,
                p * p >= 0,
        ;
        assert(one * f >= 0) by (nonlinear_arith)
            requires
                one > 0,
                f > 0,
        ;
        assert((q * one) * (one * f) <= (p * p) * (one * f)) by (nonlinear_arith)
            requires
                q * one <= p * p,
                one * f >= 0,
        ;
        assert((q * one) * (one * f) == (one * one) * (q * f)) by (nonlinear_arith);
        let g = e * one;
        if a >= g {
            let x = r * one;
            assert(x * x >= (a - g) * (a - g)) by (nonlinear_arith)
                requires
                    x >= a - g,
                    a - g >= 0,
            ;
            assert((a - g) * (a - g) >= a * a - 2 * (a * g)) by (nonlinear_arith);
            assert(a * g <= (one * one) * g) by (nonlinear_arith)
                requires
                    a <= p * one,
                    p <= one,
                    one > 0,
                    g >= 0,
            ;
            assert(g >= 0) by (nonlinear_arith)
                requires
                    g == e * one,
                    e >= 0,
                    one > 0,
            ;
            assert(x * x == (one * one) * (r * r)) by (nonlinear_arith)
                requires
                    x == r * one,
            ;
            assert((one * one) * (r * r) >= (one * one) * (q * f) - 2 * ((one * one) * g));
            assert(r * r >= q * f - 2 * g) by (nonlinear_arith)
                requires
                    (one * one) * (r * r) >= (one * one) * (q * f) - 2 * ((one * one) * g),
                    one > 0,
            ;
            assert((s + 1) * one == s * one + one) by (nonlinear_arith);
            assert((2 * e + 1) * one == 2 * g + one) by (nonlinear_arith)
                requires
                    g == e * one,
            ;
        } else {
            // q * f * one * one <= a * a <= one * one * g
            assert(a * a <= (one * one) * g) by (nonlinear_arith)
                requires
                    0 <= a <= g,
                    a <= p * one,
                    p <= one,
                    one > 0,
            ;
            assert(q * f <= g) by (nonlinear_arith)
                requires
                    (one * one) * (q * f) <= (one * one) * g,
                    one > 0,
            ;
            assert((2 * e + 1) * one >= g) by (nonlinear_arith)
                requires
                    g == e * one,
                    e >= 0,
                    one > 0,
            ;
            assert(s * one >= 0) by (nonlinear_arith)
                requires
                    s >= 0,
                    one > 0,
            ;
        }
    }
}

/// From one argument to a larger one, `exp(-x)` falls to at most its value over
/// one plus the distance, and by at most its value times the distance.
pub proof fn lemma_decay_step(x: int, y: int)
    requires
        0 <= x <= y <= 48 * ONE,
    ensures
        decay(y) * (ONE + (y - x)) <= (decay(x) + 9_021) * ONE,
        decay(y) * ONE >= decay(x) * (ONE - (y - x)) - 6_446 * ONE,
{
    let one = ONE as int;
    let (u, v) = (x / 16, y / 16);
    let d = v - u;
    lemma_root_step(u, v);
    let (p, r) = (ONE * ONE / exp_of(u), ONE * ONE / exp_of(v));
    lemma_square_step(p, r, d, 561, 401);
    let (p2, r2) = (times(p, p), times(r, r));
    lemma_square_step(p2, r2, 2 * d, 1_124, 803);
    let (p4, r4) = (times(p2, p2), times(r2, r2));
    lemma_square_step(p4, r4, 4 * d, 2_250, 1_607);
    let (p8, r8) = (times(p4, p4), times(r4, r4));
    lemma_square_step(p8, r8, 8 * d, 4_502, 3_215);
    lemma_decay_antitone(x, y);
    let (f, g) = (decay(x), decay(y));
    assert(g * (one + (y - x)) <= g * (one + 16 * d) + 15 * one) by (nonlinear_arith)
        requires
            0 <= g <= one,
            y - x <= 16 * d + 15,
    ;
    assert(f * (one - (y - x)) <= f * (one - 16 * d) + 15 * one) by (nonlinear_arith)
        requires
            0 <= f <= one,
            16 * d <= y - x + 15,
    ;
    assert((f + 9_006) * one + 15 * one == (f + 9_021) * one) by (nonlinear_arith);
}

/// One step above nothing, the exponential is more than one.
pub proof fn lemma_exp_one()
    ensures
        exp_of(1) > ONE,
{
    assert(term(1, 0) == ONE);
    assert(term(1, 1) == 1) by {
        assert(term(1, 1) == term(1, 0) * 1 / (1 * ONE));
    }
    assert(series(1, 1) == series(1, 0) + term(1, 1));
    lemma_series_extends(1, 1, TERMS as nat);
}

proof fn lemma_series_extends(x: int, j: nat, k: nat)
    requires
        x >= 0,
        j <= k,
    ensures
        series(x, j) <= series(x, k),
    decreases k,
{
    if j < k {
        lemma_series_extends(x, j, (k - 1) as nat);
        lemma_term_nonnegative(x, k);
    }
}

} // verus!
