//! That markets are priced by the logarithmic scoring rule: weights fall
//! exponentially, prices are in the proportion of the weights, and a purchase is
//! charged what the prices along the way add up to.
use vstd::prelude::*;

use crate::betting::{moved, purchase_cost, sale_value};
use crate::checked_math::fits;
use crate::exponential::{lemma_decay_lasts, lemma_decay_step, lemma_exp_one, lemma_exp_step};
use crate::lmsr::{
    cost, exp_of, is_log, lemma_decay_antitone, lemma_exp_monotone, lemma_exp_zero,
    lemma_log_bounds, lemma_peak, lemma_weight, lemma_weights, log_of, peak, price, quantities,
    weight, weights, CUTOFF, ONE, SCALE,
};
use crate::pricing::{lemma_log_monotone, lemma_price_range, lemma_price_rises};

verus! {

/// The weight of outcomes whose gaps are under the cutoff.
proof fn lemma_near_weights(gap: int, wider: int, b: int)
    requires
        0 <= gap <= wider < CUTOFF * b,
        b > 0,
    ensures
        weight(wider, b) * (b + (wider - gap)) <= (weight(gap, b) + 9_022) * b,
        weight(wider, b) * b >= weight(gap, b) * (b - (wider - gap)) - 6_447 * b,
{
    let one = ONE as int;
    let x = gap * ONE / b;
    let y = wider * ONE / b;
    assert(b * x <= gap * one < b * (x + 1) && x >= 0) by (nonlinear_arith)
        requires
            x == gap * one / b,
            gap >= 0,
            one > 0,
            b > 0,
    ;
    assert(b * y <= wider * one < b * (y + 1)) by (nonlinear_arith)
        requires
            y == wider * one / b,
            b > 0,
    ;
    assert(x <= y) by (nonlinear_arith)
        requires
            b * x <= gap * one,
            gap * one <= wider * one,
            wider * one < b * (y + 1),
            b > 0,
    ;
    assert(gap * one <= wider * one) by (nonlinear_arith)
        requires
            gap <= wider,
            one > 0,
    ;
    assert(y <= 48 * one) by (nonlinear_arith)
        requires
            b * y <= wider * one,
            wider < 28 * b,
            b > 0,
            one > 0,
    ;
    lemma_decay_step(x, y);
    lemma_weight(gap, wider, b);
    let (v, w) = (weight(gap, b), weight(wider, b));
    let d = wider - gap;
    let z = y - x;
    assert(d * one < b * (z + 1) && d * one > b * (z - 1)) by (nonlinear_arith)
        requires
            b * x <= gap * one < b * (x + 1),
            b * y <= wider * one < b * (y + 1),
            d == wider - gap,
            z == y - x,
    ;
    // w * (b + d) * one <= b * w * (one + z + 1)
    assert(w * (b * one + d * one) <= w * (b * one + b * (z + 1))) by (nonlinear_arith)
        requires
            d * one <= b * (z + 1),
            w >= 0,
    ;
    assert(w * (b * one + b * (z + 1)) == b * (w * (one + z)) + b * w) by (nonlinear_arith);
    assert(b * (w * (one + z)) <= b * ((v + 9_021) * one)) by (nonlinear_arith)
        requires
            w * (one + z) <= (v + 9_021) * one,
            b > 0,
    ;
    assert(b * w <= b * one) by (nonlinear_arith)
        requires
            w <= one,
            b > 0,
    ;
    assert(w * (b * one + d * one) == one * (w * (b + d))) by (nonlinear_arith);
    assert(b * ((v + 9_021) * one) + b * one == one * ((v + 9_022) * b)) by (nonlinear_arith);
    assert(w * (b + d) <= (v + 9_022) * b) by (nonlinear_arith)
        requires
            one * (w * (b + d)) <= one * ((v + 9_022) * b),
            one > 0,
    ;
    // w * b * one >= b * (v * (one - z) - 6446 * one)
    assert(b * (w * one) >= b * (v * (one - z) - 6_446 * one)) by (nonlinear_arith)
        requires
            w * one >= v * (one - z) - 6_446 * one,
            b > 0,
    ;
    assert(b * (v * (one - z) - 6_446 * one) == v * (b * one - b * z) - 6_446 * (b * one))
        by (nonlinear_arith);
    assert(b * z <= d * one + b) by (nonlinear_arith)
        requires
            d * one > b * (z - 1),
    ;
    assert(v * (b * one - b * z) >= v * (b * one - d * one - b)) by (nonlinear_arith)
        requires
            b * z <= d * one + b,
            v >= 0,
    ;
    assert(v * (b * one - d * one - b) == one * (v * (b - d)) - v * b) by (nonlinear_arith);
    assert(v * b <= b * one) by (nonlinear_arith)
        requires
            v <= one,
            b > 0,
    ;
    assert(one * (w * b) >= one * (v * (b - d) - 6_447 * b)) by (nonlinear_arith)
        requires
            b * (w * one) >= one * (v * (b - d)) - b * one - 6_446 * (b * one),
    ;
    assert(w * b >= v * (b - d) - 6_447 * b) by (nonlinear_arith)
        requires
            one * (w * b) >= one * (v * (b - d) - 6_447 * b),
            one > 0,
    ;
}

/// Two to the power of `n`.
spec fn doubled(n: nat) -> int
    decreases n,
{
    if n == 0 {
        1
    } else {
        2 * doubled((n - 1) as nat)
    }
}

proof fn lemma_far_weight(n: nat, b: int)
    requires
        b > 0,
        n <= 27,
    ensures
        (weight(n * b, b) - 9_022) * doubled(n) <= ONE,
        doubled(n) > 0,
    decreases n,
{
    lemma_weight(0, 0, b);
    if n == 0 {
        assert(0 * b == 0) by (nonlinear_arith);
    } else {
        let before = (n - 1) as nat;
        lemma_far_weight(before, b);
        assert(n * b == before * b + b && 0 <= before * b) by (nonlinear_arith)
            requires
                n == before + 1,
                before >= 0,
                b > 0,
        ;
        assert(n * b < 28 * b) by (nonlinear_arith)
            requires
                n <= 27,
                b > 0,
        ;
        lemma_near_weights(before * b, n * b, b);
        let (v, w) = (weight(before * b, b), weight(n * b, b));
        assert(2 * w <= v + 9_022) by (nonlinear_arith)
            requires
                w * (b + b) <= (v + 9_022) * b,
                b > 0,
        ;
        let k = doubled(before);
        assert((w - 9_022) * (2 * k) <= (v - 9_022) * k) by (nonlinear_arith)
            requires
                2 * w <= v + 9_022,
                k > 0,
        ;
    }
}

/// The weight of an outcome is the exponential of minus its gap over `b`.
///
/// Over any distance `d` from one gap to a wider one, the weight falls to at most
/// its value divided by `1 + d / b` and by at most its value times `d / b`, up to
/// an error of twenty billionths. Starting from one at no gap, only the
/// exponential does that over every distance.
pub proof fn lemma_weight_is_exponential(gap: int, wider: int, b: int)
    requires
        0 <= gap <= wider,
        b > 0,
    ensures
        weight(0, b) == 1_000_000_000_000,
        weight(wider, b) * (b + (wider - gap)) <= (weight(gap, b) + 20_000) * b,
        weight(wider, b) * b >= weight(gap, b) * (b - (wider - gap)) - 20_000 * b,
{
    lemma_weight(gap, wider, b);
    let (v, w) = (weight(gap, b), weight(wider, b));
    let d = wider - gap;
    if wider < 28 * b {
        lemma_near_weights(gap, wider, b);
        assert((v + 9_022) * b <= (v + 20_000) * b) by (nonlinear_arith)
            requires
                b > 0,
        ;
    } else {
        assert(w == 0);
        assert((v + 20_000) * b >= 0) by (nonlinear_arith)
            requires
                v >= 0,
                b > 0,
        ;
        if d >= b {
            assert(v * (b - d) <= 0) by (nonlinear_arith)
                requires
                    v >= 0,
                    b - d <= 0,
            ;
        } else {
            lemma_far_weight(27, b);
            assert(doubled(27) == 134_217_728) by {
                reveal_with_fuel(doubled, 28);
            }
            lemma_weight(27 * b, gap, b);
            let far = weight(27 * b, b);
            assert(far <= 16_500) by (nonlinear_arith)
                requires
                    (far - 9_022) * 134_217_728 <= 1_000_000_000_000,
            ;
            assert(v * (b - d) <= 20_000 * b) by (nonlinear_arith)
                requires
                    0 <= v <= 16_500,
                    0 <= d < b,
            ;
        }
    }
}

/// The prices of two outcomes are in the proportion of the exponentials of their
/// quantities over `b`: where one outcome has `d` shares fewer, its price is at
/// most the other's divided by `1 + d / b`, and less by at most the other's times
/// `d / b`, up to two of the smallest unit. Together with prices adding up to
/// one, only the exponential proportion does that for every pair.
pub proof fn lemma_price_proportion(q: Seq<i128>, b: int, i: int, j: int)
    requires
        quantities(q),
        b > 0,
        0 <= i < q.len(),
        0 <= j < q.len(),
        q[i] <= q[j],
    ensures
        price(q, b, i) * (b + (q[j] - q[i])) <= (price(q, b, j) + 2) * b,
        price(q, b, i) * b >= price(q, b, j) * (b - (q[j] - q[i])) - 2 * b,
{
    lemma_peak(q);
    lemma_weights(q, b);
    let one = ONE as int;
    let scale = SCALE as int;
    let top = peak(q);
    let sum = weights(q, top, b, q.len());
    assert(q[i] <= top && q[j] <= top);
    lemma_weight_is_exponential(top - q[j], top - q[i], b);
    let d = q[j] - q[i];
    let (v, w) = (weight(top - q[j], b), weight(top - q[i], b));
    assert(0 <= v <= sum && 0 <= w <= sum);
    let (x, y) = (price(q, b, i), price(q, b, j));
    assert(x * sum <= w * scale < (x + 1) * sum && x >= 0) by (nonlinear_arith)
        requires
            x == w * scale / sum,
            w >= 0,
            scale > 0,
            sum > 0,
    ;
    assert(y * sum <= v * scale < (y + 1) * sum && y >= 0) by (nonlinear_arith)
        requires
            y == v * scale / sum,
            v >= 0,
            scale > 0,
            sum > 0,
    ;
    lemma_proportion(one, scale, sum, v, w, x, y, b, d);
}

proof fn lemma_proportion(
    one: int,
    scale: int,
    sum: int,
    v: int,
    w: int,
    x: int,
    y: int,
    b: int,
    d: int,
)
    requires
        one == 1_000_000_000_000,
        scale == 10_000_000,
        sum >= one,
        b > 0,
        d >= 0,
        v >= 0,
        w >= 0,
        x >= 0,
        y >= 0,
        x * sum <= w * scale < (x + 1) * sum,
        y * sum <= v * scale < (y + 1) * sum,
        w * (b + d) <= (v + 20_000) * b,
        w * b >= v * (b - d) - 20_000 * b,
    ensures
        x * (b + d) <= (y + 2) * b,
        x * b >= y * (b - d) - 2 * b,
{
    // x * sum * (b + d) <= w * scale * (b + d) <= (v + 20000) * b * scale <= (y + 2) * sum * b
    assert((x * sum) * (b + d) <= (w * scale) * (b + d)) by (nonlinear_arith)
        requires
            x * sum <= w * scale,
            b + d >= 0,
    ;
    assert((w * scale) * (b + d) == scale * (w * (b + d))) by (nonlinear_arith);
    assert(scale * (w * (b + d)) <= scale * ((v + 20_000) * b)) by (nonlinear_arith)
        requires
            w * (b + d) <= (v + 20_000) * b,
            scale > 0,
    ;
    assert(scale * ((v + 20_000) * b) == (v * scale + 20_000 * scale) * b) by (nonlinear_arith);
    assert((v * scale + 20_000 * scale) * b <= ((y + 1) * sum + sum) * b) by (nonlinear_arith)
        requires
            v * scale < (y + 1) * sum,
            20_000 * scale <= sum,
            b > 0,
    ;
    assert((x * sum) * (b + d) == sum * (x * (b + d))) by (nonlinear_arith);
    assert(((y + 1) * sum + sum) * b == sum * ((y + 2) * b)) by (nonlinear_arith);
    assert(x * (b + d) <= (y + 2) * b) by (nonlinear_arith)
        requires
            sum * (x * (b + d)) <= sum * ((y + 2) * b),
            sum > 0,
    ;
    if b - d <= 0 {
        assert(y * (b - d) <= 0) by (nonlinear_arith)
            requires
                y >= 0,
                b - d <= 0,
        ;
        assert(x * b >= 0) by (nonlinear_arith)
            requires
                x >= 0,
                b > 0,
        ;
    } else {
        assert((y * sum) * (b - d) <= (v * scale) * (b - d)) by (nonlinear_arith)
            requires
                y * sum <= v * scale,
                b - d >= 0,
        ;
        assert((v * scale) * (b - d) == scale * (v * (b - d))) by (nonlinear_arith);
        assert(scale * (v * (b - d)) <= scale * ((w + 20_000) * b)) by (nonlinear_arith)
            requires
                w * b >= v * (b - d) - 20_000 * b,
                scale > 0,
        ;
        assert(scale * ((w + 20_000) * b) == (w * scale + 20_000 * scale) * b)
            by (nonlinear_arith);
        assert((w * scale + 20_000 * scale) * b <= ((x + 1) * sum + sum) * b) by (nonlinear_arith)
            requires
                w * scale < (x + 1) * sum,
                20_000 * scale <= sum,
                b > 0,
        ;
        assert((y * sum) * (b - d) == sum * (y * (b - d))) by (nonlinear_arith);
        assert(((x + 1) * sum + sum) * b == sum * ((x + 2) * b)) by (nonlinear_arith);
        assert(y * (b - d) <= (x + 2) * b) by (nonlinear_arith)
            requires
                sum * (y * (b - d)) <= sum * ((x + 2) * b),
                sum > 0,
        ;
        assert((x + 2) * b == x * b + 2 * b) by (nonlinear_arith);
    }
}

/// From one sum to a larger one, the logarithm grows by at least the difference
/// over the larger and at most the difference over the smaller.
proof fn lemma_log_step(s: int, t: int)
    requires
        ONE <= s <= t <= 8 * ONE,
    ensures
        log_of(t) >= log_of(s),
        (log_of(t) - log_of(s)) * t >= (t - s - 1_640) * ONE,
        (log_of(t) - log_of(s)) * s <= (t - s + 570) * ONE,
{
    let one = ONE as int;
    lemma_log_bounds(s);
    lemma_log_bounds(t);
    lemma_log_monotone(s, t);
    let (l, m) = (log_of(s), log_of(t));
    let d = m - l;
    assert(is_log(l, s) && is_log(m, t));
    let (a, z) = (exp_of(l), exp_of(m + 1));
    lemma_exp_step(l, m + 1);
    lemma_exp_step(m, m + 1);
    let y = exp_of(m);
    assert(a <= s && y <= t < z);
    assert(((m + 1) - m) * z == z) by (nonlinear_arith);
    assert(z <= t + 410) by (nonlinear_arith)
        requires
            z * one <= y * one + z + 400 * one,
            y <= t <= 8 * one,
            one == 1_000_000_000_000,
    ;
    assert(z * one <= a * one + (d + 1) * z + 400 * one);
    assert((d + 1) * z <= d * t + 1_240 * one) by (nonlinear_arith)
        requires
            z <= t + 410,
            0 <= d <= 3 * one,
            0 <= t <= 8 * one,
            one == 1_000_000_000_000,
    ;
    assert(d * t >= (t - s - 1_640) * one) by (nonlinear_arith)
        requires
            z * one <= a * one + d * t + 1_240 * one + 400 * one,
            t <= z,
            a <= s,
            one > 0,
    ;
    if d == 0 {
        assert(0 * s == 0) by (nonlinear_arith);
        assert((t - s + 570) * one >= 0) by (nonlinear_arith)
            requires
                t >= s,
                one > 0,
        ;
    } else {
        lemma_exp_step(l + 1, m);
        let c = exp_of(l + 1);
        assert(s < c);
        assert(c * (one + (d - 1)) >= c * one + s * (d - 1)) by (nonlinear_arith)
            requires
                s <= c,
                d >= 1,
        ;
        assert(d * s <= (t - s + 570) * one) by (nonlinear_arith)
            requires
                y * one >= c * one + s * (d - 1) - 560 * one,
                y <= t,
                s <= c,
                0 < s <= 8 * one,
                one > 0,
        ;
    }
}

/// What is added to the cost by a logarithm.
proof fn lemma_cost_part(b: int, l: int) -> (part: int)
    requires
        b > 0,
        l >= 0,
    ensures
        part == b * l / (ONE as int),
        part * ONE <= b * l < (part + 1) * ONE,
{
    let one = ONE as int;
    let part = b * l / one;
    assert(part * one <= b * l < (part + 1) * one) by (nonlinear_arith)
        requires
            part == b * l / one,
            one > 0,
    ;
    part
}

/// A charge is the price before the purchase times the shares, up to the square
/// of the shares over `b` and rounding.
pub open spec fn follows_price(charge: int, price: int, shares: int, b: int) -> bool {
    let rounding = b * (5 * shares + 4 * b + 20_000_000);
    &&& charge * b * 10_000_000 <= shares * price * b + shares * shares * 10_000_000 + rounding
    &&& charge * b * 10_000_000 >= shares * price * b - 7 * (shares * shares) * 10_000_000
        - rounding
}

proof fn lemma_distribute(k: int, a: int, b: int, c: int, d: int, e: int)
    by (nonlinear_arith)
    ensures
        k * (a + b + c + d + e) == k * a + k * b + k * c + k * d + k * e,
{
}

proof fn lemma_trailing_sum(one: int, sum: int, w: int, v: int, s: int, b: int, d: int, charge: int)
    requires
        one == 1_000_000_000_000,
        sum >= one,
        0 <= w <= v <= one,
        s > 0,
        b > 0,
        (v - w) * b <= v * s + 20_000 * b,
        d * sum <= (v - w + 570) * one,
        charge * one <= b * d + one,
    ensures
        charge * sum * b <= w * s * b + sum * (s * s) + 20_000 * (s * b) + 20_570 * (b * b) + sum
            * b,
{
    assert((charge * one) * sum <= (b * d + one) * sum) by (nonlinear_arith)
        requires
            charge * one <= b * d + one,
            sum > 0,
    ;
    assert((b * d + one) * sum == b * (d * sum) + one * sum) by (nonlinear_arith);
    assert(b * (d * sum) <= b * ((v - w + 570) * one)) by (nonlinear_arith)
        requires
            d * sum <= (v - w + 570) * one,
            b > 0,
    ;
    assert(b * ((v - w + 570) * one) == one * ((v - w) * b + 570 * b)) by (nonlinear_arith);
    assert((charge * one) * sum == one * (charge * sum)) by (nonlinear_arith);
    assert(charge * sum <= (v - w) * b + 570 * b + sum) by (nonlinear_arith)
        requires
            one * (charge * sum) <= one * ((v - w) * b + 570 * b) + one * sum,
            one > 0,
    ;
    assert(charge * sum <= v * s + 20_570 * b + sum);
    assert(charge * sum * b <= (v * s + 20_570 * b + sum) * b) by (nonlinear_arith)
        requires
            charge * sum <= v * s + 20_570 * b + sum,
            b > 0,
    ;
    assert((v * s + 20_570 * b + sum) * b == (v * b) * s + 20_570 * (b * b) + sum * b)
        by (nonlinear_arith);
    assert(v * b <= w * b + v * s + 20_000 * b) by (nonlinear_arith)
        requires
            (v - w) * b <= v * s + 20_000 * b,
    ;
    assert((v * b) * s <= (w * b + v * s + 20_000 * b) * s) by (nonlinear_arith)
        requires
            v * b <= w * b + v * s + 20_000 * b,
            s > 0,
    ;
    assert((w * b + v * s + 20_000 * b) * s == w * s * b + v * (s * s) + 20_000 * (s * b))
        by (nonlinear_arith);
    assert(v * (s * s) <= sum * (s * s)) by (nonlinear_arith)
        requires
            v <= sum,
            s > 0,
    ;
}

/// The charge for catching up with the leader, as a relation of numbers: `w` and
/// `v` are the weights before and after, `sum` and `after` the sums of all
/// weights, and `d` what the logarithm gains.
proof fn lemma_trailing_charge(
    sum: int,
    after: int,
    w: int,
    v: int,
    s: int,
    b: int,
    d: int,
    charge: int,
    p: int,
)
    requires
        ONE <= sum,
        after == sum + (v - w),
        0 <= w <= v <= ONE,
        s > 0,
        b > 0,
        0 <= p <= SCALE,
        (v - w) * b <= v * s + 20_000 * b,
        (v - w) * b >= w * s - 20_000 * b,
        d * sum <= (v - w + 570) * ONE,
        d * after >= (v - w - 1_640) * ONE,
        charge * ONE <= b * d + ONE,
        charge * ONE >= b * d - ONE,
        p * sum <= w * SCALE < (p + 1) * sum,
    ensures
        charge * b * SCALE <= s * p * b + s * s * SCALE + b * (2 * s + b + SCALE),
        charge * b * SCALE >= s * p * b - s * s * SCALE - b * (2 * s + b + SCALE),
{
    let one = ONE as int;
    let scale = SCALE as int;
    lemma_trailing_sum(one, sum, w, v, s, b, d, charge);
    assert(s * b > 0 && b * b > 0) by (nonlinear_arith)
        requires
            s > 0,
            b > 0,
    ;
    let bound = w * s * b + sum * (s * s) + 20_000 * (s * b) + 20_570 * (b * b) + sum * b;
    assert((charge * sum * b) * scale <= bound * scale) by (nonlinear_arith)
        requires
            charge * sum * b <= bound,
            scale > 0,
    ;
    lemma_distribute(
        scale,
        w * s * b,
        sum * (s * s),
        20_000 * (s * b),
        20_570 * (b * b),
        sum * b,
    );
    assert(bound * scale == scale * bound) by (nonlinear_arith);
    assert(scale * (w * s * b) == (w * scale) * (s * b)) by (nonlinear_arith);
    assert(scale * (sum * (s * s)) == sum * (s * s * scale)) by (nonlinear_arith);
    assert(scale * (20_000 * (s * b)) == (20_000 * scale) * (s * b)) by (nonlinear_arith);
    assert(scale * (20_570 * (b * b)) == (20_570 * scale) * (b * b)) by (nonlinear_arith);
    assert(scale * (sum * b) == sum * (b * scale)) by (nonlinear_arith);
    assert(bound * scale == (w * scale) * (s * b) + sum * (s * s * scale) + (20_000 * scale) * (s
        * b) + (20_570 * scale) * (b * b) + sum * (b * scale));
    assert((w * scale) * (s * b) <= ((p + 1) * sum) * (s * b)) by (nonlinear_arith)
        requires
            w * scale <= (p + 1) * sum,
            s * b > 0,
    ;
    assert((20_000 * scale) * (s * b) <= sum * (s * b)) by (nonlinear_arith)
        requires
            20_000 * scale <= sum,
            s * b > 0,
    ;
    assert((20_570 * scale) * (b * b) <= sum * (b * b)) by (nonlinear_arith)
        requires
            20_570 * scale <= sum,
            b * b > 0,
    ;
    let upper = s * p * b + s * s * scale + b * (2 * s + b + scale);
    assert(upper == p * (s * b) + s * s * scale + 2 * (s * b) + b * b + b * scale) by {
        assert(s * p * b == p * (s * b)) by (nonlinear_arith);
        assert(b * (2 * s + b + scale) == 2 * (s * b) + b * b + b * scale) by (nonlinear_arith);
    }
    lemma_distribute(sum, p * (s * b), s * s * scale, 2 * (s * b), b * b, b * scale);
    assert(((p + 1) * sum) * (s * b) == sum * (p * (s * b)) + sum * (s * b)) by (nonlinear_arith);
    assert(sum * (2 * (s * b)) == 2 * (sum * (s * b))) by (nonlinear_arith);
    assert(((p + 1) * sum) * (s * b) + sum * (s * s * scale) + sum * (s * b) + sum * (b * b) + sum
        * (b * scale) == sum * upper);
    assert((charge * sum * b) * scale == sum * (charge * b * scale)) by (nonlinear_arith);
    assert(charge * b * scale <= upper) by (nonlinear_arith)
        requires
            sum * (charge * b * scale) <= sum * upper,
            sum > 0,
    ;
    lemma_trailing_below(one, scale, sum, after, w, v, s, b, d, charge, p);
}

proof fn lemma_trailing_below(
    one: int,
    scale: int,
    sum: int,
    after: int,
    w: int,
    v: int,
    s: int,
    b: int,
    d: int,
    charge: int,
    p: int,
)
    requires
        one == 1_000_000_000_000,
        scale == 10_000_000,
        one <= sum,
        after == sum + (v - w),
        0 <= w <= v <= one,
        s > 0,
        b > 0,
        0 <= p <= scale,
        (v - w) * b <= v * s + 20_000 * b,
        (v - w) * b >= w * s - 20_000 * b,
        d * after >= (v - w - 1_640) * one,
        charge * one >= b * d - one,
        p * sum <= w * scale,
    ensures
        charge * b * scale >= s * p * b - s * s * scale - b * (2 * s + b + scale),
{
    assert(s * b > 0 && b * b > 0) by (nonlinear_arith)
        requires
            s > 0,
            b > 0,
    ;
    assert((charge * one) * after >= (b * d - one) * after) by (nonlinear_arith)
        requires
            charge * one >= b * d - one,
            after > 0,
    ;
    assert((b * d - one) * after == b * (d * after) - one * after) by (nonlinear_arith);
    assert(b * (d * after) >= b * ((v - w - 1_640) * one)) by (nonlinear_arith)
        requires
            d * after >= (v - w - 1_640) * one,
            b > 0,
    ;
    assert(b * ((v - w - 1_640) * one) == one * ((v - w) * b - 1_640 * b)) by (nonlinear_arith);
    assert((charge * one) * after == one * (charge * after)) by (nonlinear_arith);
    assert(charge * after >= (v - w) * b - 1_640 * b - after) by (nonlinear_arith)
        requires
            one * (charge * after) >= one * ((v - w) * b - 1_640 * b) - one * after,
            one > 0,
    ;
    let low = w * s - 21_640 * b - after;
    assert(charge * after >= low);
    assert((charge * after) * (b * scale) >= low * (b * scale)) by (nonlinear_arith)
        requires
            charge * after >= low,
            b > 0,
            scale > 0,
    ;
    assert(low * (b * scale) == (w * scale) * (s * b) - (21_640 * scale) * (b * b) - after * (b
        * scale)) by (nonlinear_arith)
        requires
            low == w * s - 21_640 * b - after,
    ;
    assert((21_640 * scale) * (b * b) <= after * (b * b)) by (nonlinear_arith)
        requires
            21_640 * scale <= after,
            b * b > 0,
    ;
    // s * p * b * after <= s * b * w * scale + s * s * scale * after + s * b * after
    assert(p * after == p * sum + p * (v - w)) by (nonlinear_arith)
        requires
            after == sum + (v - w),
    ;
    assert((p * after) * (s * b) <= (w * scale + p * (v - w)) * (s * b)) by (nonlinear_arith)
        requires
            p * after <= w * scale + p * (v - w),
            s * b > 0,
    ;
    assert((w * scale + p * (v - w)) * (s * b) == (w * scale) * (s * b) + (p * s) * ((v - w) * b))
        by (nonlinear_arith);
    assert(0 <= p * s <= scale * s) by (nonlinear_arith)
        requires
            0 <= p <= scale,
            s > 0,
    ;
    let gain = (v - w) * b;
    let most = v * s + 20_000 * b;
    assert(most >= 0 && gain >= 0) by (nonlinear_arith)
        requires
            most == v * s + 20_000 * b,
            gain == (v - w) * b,
            0 <= w <= v,
            s > 0,
            b > 0,
    ;
    assert((p * s) * gain <= (scale * s) * most) by (nonlinear_arith)
        requires
            0 <= p * s <= scale * s,
            0 <= gain <= most,
    ;
    assert((scale * s) * most == v * (s * s * scale) + (20_000 * scale) * (s * b))
        by (nonlinear_arith)
        requires
            most == v * s + 20_000 * b,
    ;
    assert(s * s * scale >= 0) by (nonlinear_arith)
        requires
            s > 0,
            scale > 0,
    ;
    assert(v * (s * s * scale) <= after * (s * s * scale)) by (nonlinear_arith)
        requires
            v <= after,
            s * s * scale >= 0,
    ;
    assert((20_000 * scale) * (s * b) <= after * (s * b)) by (nonlinear_arith)
        requires
            20_000 * scale <= after,
            s * b > 0,
    ;
    let lower = s * p * b - s * s * scale - b * (2 * s + b + scale);
    assert(after * lower <= (p * after) * (s * b) - after * (s * s * scale) - after * (s * b)
        - after * (b * b) - after * (b * scale)) by (nonlinear_arith)
        requires
            lower == s * p * b - s * s * scale - b * (2 * s + b + scale),
            after * (s * b) >= 0,
    ;
    assert(after * (s * b) >= 0) by (nonlinear_arith)
        requires
            after > 0,
            s * b > 0,
    ;
    assert((charge * after) * (b * scale) == after * (charge * b * scale)) by (nonlinear_arith);
    assert(charge * b * scale >= lower) by (nonlinear_arith)
        requires
            after * (charge * b * scale) >= after * lower,
            after > 0,
    ;
}

/// The charge for extending a lead, as a relation of numbers: `rest` and `less`
/// are the weights of the other outcomes before and after, and `d` what the
/// logarithm loses.
proof fn lemma_leading_charge(
    rest: int,
    less: int,
    s: int,
    b: int,
    d: int,
    charge: int,
    p: int,
)
    requires
        0 <= less <= rest <= 7 * ONE,
        s > 0,
        b > 0,
        p >= 0,
        (rest - less) * b <= rest * s + 160_000 * b,
        (rest - less) * b >= less * s - 160_000 * b,
        d * (ONE + rest) >= (rest - less - 1_640) * ONE,
        d * (ONE + less) <= (rest - less + 570) * ONE,
        (charge - s) * ONE <= -(b * d) + ONE,
        (charge - s) * ONE >= -(b * d) - ONE,
        p * (ONE + rest) <= ONE * SCALE < (p + 1) * (ONE + rest),
    ensures
        charge * b * SCALE <= s * p * b + s * s * SCALE + b * (3 * s + 2 * b + SCALE),
        charge * b * SCALE >= s * p * b - 7 * (s * s) * SCALE - b * (3 * s + 2 * b + SCALE),
{
    lemma_leading_above(ONE as int, SCALE as int, rest, less, s, b, d, charge, p);
    lemma_leading_below(ONE as int, SCALE as int, rest, less, s, b, d, charge, p);
}

proof fn lemma_leading_above(
    one: int,
    scale: int,
    rest: int,
    less: int,
    s: int,
    b: int,
    d: int,
    charge: int,
    p: int,
)
    requires
        one == 1_000_000_000_000,
        scale == 10_000_000,
        0 <= less <= rest,
        s > 0,
        b > 0,
        (rest - less) * b <= rest * s + 160_000 * b,
        (rest - less) * b >= less * s - 160_000 * b,
        d * (one + rest) >= (rest - less - 1_640) * one,
        (charge - s) * one <= -(b * d) + one,
        one * scale < (p + 1) * (one + rest),
    ensures
        charge * b * scale <= s * p * b + s * s * scale + b * (3 * s + 2 * b + scale),
{
    let sum = one + rest;
    let c = charge - s;
    assert(s * b > 0 && b * b > 0) by (nonlinear_arith)
        requires
            s > 0,
            b > 0,
    ;
    assert((c * one) * sum <= (-(b * d) + one) * sum) by (nonlinear_arith)
        requires
            c * one <= -(b * d) + one,
            sum > 0,
    ;
    assert((-(b * d) + one) * sum == -(b * (d * sum)) + one * sum) by (nonlinear_arith);
    assert(b * (d * sum) >= b * ((rest - less - 1_640) * one)) by (nonlinear_arith)
        requires
            d * sum >= (rest - less - 1_640) * one,
            b > 0,
    ;
    assert(b * ((rest - less - 1_640) * one) == one * ((rest - less) * b - 1_640 * b))
        by (nonlinear_arith);
    assert((c * one) * sum == one * (c * sum)) by (nonlinear_arith);
    assert(c * sum <= -((rest - less) * b) + 1_640 * b + sum) by (nonlinear_arith)
        requires
            one * (c * sum) <= -(one * ((rest - less) * b - 1_640 * b)) + one * sum,
            one > 0,
    ;
    assert(c * sum <= -(less * s) + 161_640 * b + sum);
    assert((c * sum) * b <= (-(less * s) + 161_640 * b + sum) * b) by (nonlinear_arith)
        requires
            c * sum <= -(less * s) + 161_640 * b + sum,
            b > 0,
    ;
    assert((-(less * s) + 161_640 * b + sum) * b == -((less * b) * s) + 161_640 * (b * b) + sum
        * b) by (nonlinear_arith);
    assert((rest - less) * b == rest * b - less * b) by (nonlinear_arith);
    assert((less * b) * s >= (rest * b - rest * s - 160_000 * b) * s) by (nonlinear_arith)
        requires
            less * b >= rest * b - rest * s - 160_000 * b,
            s > 0,
    ;
    assert((rest * b - rest * s - 160_000 * b) * s == rest * (s * b) - rest * (s * s) - 160_000
        * (s * b)) by (nonlinear_arith);
    assert((c * sum) * b == (charge * sum) * b - sum * (s * b)) by (nonlinear_arith)
        requires
            c == charge - s,
    ;
    assert(sum * (s * b) - rest * (s * b) == one * (s * b)) by (nonlinear_arith)
        requires
            sum == one + rest,
    ;
    let bound = one * (s * b) + rest * (s * s) + 160_000 * (s * b) + 161_640 * (b * b) + sum * b;
    assert((charge * sum) * b <= bound);
    assert(((charge * sum) * b) * scale <= bound * scale) by (nonlinear_arith)
        requires
            (charge * sum) * b <= bound,
            scale > 0,
    ;
    lemma_distribute(
        scale,
        one * (s * b),
        rest * (s * s),
        160_000 * (s * b),
        161_640 * (b * b),
        sum * b,
    );
    assert(bound * scale == scale * bound) by (nonlinear_arith);
    assert(scale * (one * (s * b)) == (one * scale) * (s * b)) by (nonlinear_arith);
    assert(scale * (rest * (s * s)) == rest * (s * s * scale)) by (nonlinear_arith);
    assert(scale * (160_000 * (s * b)) == (160_000 * scale) * (s * b)) by (nonlinear_arith);
    assert(scale * (161_640 * (b * b)) == (161_640 * scale) * (b * b)) by (nonlinear_arith);
    assert(scale * (sum * b) == sum * (b * scale)) by (nonlinear_arith);
    assert(bound * scale == (one * scale) * (s * b) + rest * (s * s * scale) + (160_000 * scale)
        * (s * b) + (161_640 * scale) * (b * b) + sum * (b * scale));
    assert((one * scale) * (s * b) <= ((p + 1) * sum) * (s * b)) by (nonlinear_arith)
        requires
            one * scale <= (p + 1) * sum,
            s * b > 0,
    ;
    assert(s * s * scale >= 0) by (nonlinear_arith)
        requires
            s > 0,
            scale > 0,
    ;
    assert(rest * (s * s * scale) <= sum * (s * s * scale)) by (nonlinear_arith)
        requires
            rest <= sum,
            s * s * scale >= 0,
    ;
    assert((160_000 * scale) * (s * b) <= 2 * (sum * (s * b))) by (nonlinear_arith)
        requires
            160_000 * scale <= 2 * sum,
            s * b > 0,
    ;
    assert((161_640 * scale) * (b * b) <= 2 * (sum * (b * b))) by (nonlinear_arith)
        requires
            161_640 * scale <= 2 * sum,
            b * b > 0,
    ;
    let upper = s * p * b + s * s * scale + b * (3 * s + 2 * b + scale);
    assert(upper == p * (s * b) + s * s * scale + 3 * (s * b) + 2 * (b * b) + b * scale) by {
        assert(s * p * b == p * (s * b)) by (nonlinear_arith);
        assert(b * (3 * s + 2 * b + scale) == 3 * (s * b) + 2 * (b * b) + b * scale)
            by (nonlinear_arith);
    }
    lemma_distribute(sum, p * (s * b), s * s * scale, 3 * (s * b), 2 * (b * b), b * scale);
    assert(((p + 1) * sum) * (s * b) == sum * (p * (s * b)) + sum * (s * b)) by (nonlinear_arith);
    assert(sum * (3 * (s * b)) == 3 * (sum * (s * b))) by (nonlinear_arith);
    assert(sum * (2 * (b * b)) == 2 * (sum * (b * b))) by (nonlinear_arith);
    assert(((p + 1) * sum) * (s * b) + sum * (s * s * scale) + 2 * (sum * (s * b)) + 2 * (sum * (b
        * b)) + sum * (b * scale) == sum * upper);
    assert(((charge * sum) * b) * scale == sum * (charge * b * scale)) by (nonlinear_arith);
    assert(charge * b * scale <= upper) by (nonlinear_arith)
        requires
            sum * (charge * b * scale) <= sum * upper,
            sum > 0,
    ;
}

proof fn lemma_leading_below(
    one: int,
    scale: int,
    rest: int,
    less: int,
    s: int,
    b: int,
    d: int,
    charge: int,
    p: int,
)
    requires
        one == 1_000_000_000_000,
        scale == 10_000_000,
        0 <= less <= rest <= 7 * one,
        s > 0,
        b > 0,
        p >= 0,
        (rest - less) * b <= rest * s + 160_000 * b,
        d * (one + less) <= (rest - less + 570) * one,
        (charge - s) * one >= -(b * d) - one,
        p * (one + rest) <= one * scale,
    ensures
        charge * b * scale >= s * p * b - 7 * (s * s) * scale - b * (3 * s + 2 * b + scale),
{
    let sum = one + less;
    let c = charge - s;
    assert(s * b > 0 && b * b > 0) by (nonlinear_arith)
        requires
            s > 0,
            b > 0,
    ;
    assert((c * one) * sum >= (-(b * d) - one) * sum) by (nonlinear_arith)
        requires
            c * one >= -(b * d) - one,
            sum > 0,
    ;
    assert((-(b * d) - one) * sum == -(b * (d * sum)) - one * sum) by (nonlinear_arith);
    assert(b * (d * sum) <= b * ((rest - less + 570) * one)) by (nonlinear_arith)
        requires
            d * sum <= (rest - less + 570) * one,
            b > 0,
    ;
    assert(b * ((rest - less + 570) * one) == one * ((rest - less) * b + 570 * b))
        by (nonlinear_arith);
    assert((c * one) * sum == one * (c * sum)) by (nonlinear_arith);
    assert(c * sum >= -((rest - less) * b) - 570 * b - sum) by (nonlinear_arith)
        requires
            one * (c * sum) >= -(one * ((rest - less) * b + 570 * b)) - one * sum,
            one > 0,
    ;
    assert(c * sum >= -(rest * s) - 160_570 * b - sum);
    assert((c * sum) * b >= (-(rest * s) - 160_570 * b - sum) * b) by (nonlinear_arith)
        requires
            c * sum >= -(rest * s) - 160_570 * b - sum,
            b > 0,
    ;
    assert((-(rest * s) - 160_570 * b - sum) * b == -(rest * (s * b)) - 160_570 * (b * b) - sum
        * b) by (nonlinear_arith);
    assert((c * sum) * b == (charge * sum) * b - sum * (s * b)) by (nonlinear_arith)
        requires
            c == charge - s,
    ;
    // sum - rest == one - (rest - less)
    assert(sum * (s * b) - rest * (s * b) == one * (s * b) - s * ((rest - less) * b))
        by (nonlinear_arith)
        requires
            sum == one + less,
    ;
    assert(s * ((rest - less) * b) <= s * (rest * s + 160_000 * b)) by (nonlinear_arith)
        requires
            (rest - less) * b <= rest * s + 160_000 * b,
            s > 0,
    ;
    assert(s * (rest * s + 160_000 * b) == rest * (s * s) + 160_000 * (s * b))
        by (nonlinear_arith);
    let bound = one * (s * b) - rest * (s * s) - 160_000 * (s * b) - 160_570 * (b * b) - sum * b;
    assert((charge * sum) * b >= bound);
    assert(((charge * sum) * b) * scale >= bound * scale) by (nonlinear_arith)
        requires
            (charge * sum) * b >= bound,
            scale > 0,
    ;
    lemma_distribute(
        scale,
        one * (s * b),
        -(rest * (s * s)),
        -(160_000 * (s * b)),
        -(160_570 * (b * b)),
        -(sum * b),
    );
    assert(bound * scale == scale * bound) by (nonlinear_arith);
    assert(scale * (one * (s * b)) == (one * scale) * (s * b)) by (nonlinear_arith);
    assert(scale * -(rest * (s * s)) == -(rest * (s * s * scale))) by (nonlinear_arith);
    assert(scale * -(160_000 * (s * b)) == -((160_000 * scale) * (s * b))) by (nonlinear_arith);
    assert(scale * -(160_570 * (b * b)) == -((160_570 * scale) * (b * b))) by (nonlinear_arith);
    assert(scale * -(sum * b) == -(sum * (b * scale))) by (nonlinear_arith);
    assert(bound * scale == (one * scale) * (s * b) - rest * (s * s * scale) - (160_000 * scale)
        * (s * b) - (160_570 * scale) * (b * b) - sum * (b * scale));
    assert(p * sum <= p * (one + rest)) by (nonlinear_arith)
        requires
            p >= 0,
            sum <= one + rest,
    ;
    assert((one * scale) * (s * b) >= (p * sum) * (s * b)) by (nonlinear_arith)
        requires
            one * scale >= p * sum,
            s * b > 0,
    ;
    assert(s * s * scale >= 0) by (nonlinear_arith)
        requires
            s > 0,
            scale > 0,
    ;
    assert(rest * (s * s * scale) <= 7 * (sum * (s * s * scale))) by (nonlinear_arith)
        requires
            rest <= 7 * sum,
            s * s * scale >= 0,
    ;
    assert((160_000 * scale) * (s * b) <= 3 * (sum * (s * b))) by (nonlinear_arith)
        requires
            160_000 * scale <= 3 * sum,
            s * b > 0,
    ;
    assert((160_570 * scale) * (b * b) <= 2 * (sum * (b * b))) by (nonlinear_arith)
        requires
            160_570 * scale <= 2 * sum,
            b * b > 0,
    ;
    let lower = s * p * b - 7 * (s * s) * scale - b * (3 * s + 2 * b + scale);
    assert(lower == p * (s * b) - 7 * (s * s * scale) - 3 * (s * b) - 2 * (b * b) - b * scale) by {
        assert(s * p * b == p * (s * b)) by (nonlinear_arith);
        assert(7 * (s * s) * scale == 7 * (s * s * scale)) by (nonlinear_arith);
        assert(b * (3 * s + 2 * b + scale) == 3 * (s * b) + 2 * (b * b) + b * scale)
            by (nonlinear_arith);
    }
    lemma_distribute(
        sum,
        p * (s * b),
        -(7 * (s * s * scale)),
        -(3 * (s * b)),
        -(2 * (b * b)),
        -(b * scale),
    );
    assert((p * sum) * (s * b) == sum * (p * (s * b))) by (nonlinear_arith);
    assert(sum * -(7 * (s * s * scale)) == -(7 * (sum * (s * s * scale)))) by (nonlinear_arith);
    assert(sum * -(3 * (s * b)) == -(3 * (sum * (s * b)))) by (nonlinear_arith);
    assert(sum * -(2 * (b * b)) == -(2 * (sum * (b * b)))) by (nonlinear_arith);
    assert(sum * -(b * scale) == -(sum * (b * scale))) by (nonlinear_arith);
    assert((p * sum) * (s * b) - 7 * (sum * (s * s * scale)) - 3 * (sum * (s * b)) - 2 * (sum * (b
        * b)) - sum * (b * scale) == sum * lower);
    assert(((charge * sum) * b) * scale == sum * (charge * b * scale)) by (nonlinear_arith);
    assert(charge * b * scale >= lower) by (nonlinear_arith)
        requires
            sum * (charge * b * scale) >= sum * lower,
            sum > 0,
    ;
}

/// The weights of the first `n` outcomes but one.
spec fn others(q: Seq<i128>, top: int, b: int, n: nat, i: int) -> int
    decreases n,
{
    if n == 0 {
        0
    } else {
        others(q, top, b, (n - 1) as nat, i) + if i == n - 1 {
            0
        } else {
            weight(top - q[n - 1], b)
        }
    }
}

proof fn lemma_others(q: Seq<i128>, top: int, b: int, n: nat, i: int)
    requires
        b > 0,
        n <= q.len(),
        0 <= i < q.len(),
        forall|j: int| 0 <= j < q.len() ==> #[trigger] q[j] <= top,
    ensures
        weights(q, top, b, n) == others(q, top, b, n, i) + if i < n {
            weight(top - q[i], b)
        } else {
            0
        },
        0 <= others(q, top, b, n, i) <= (if i < n {
            n - 1
        } else {
            n as int
        }) * ONE,
    decreases n,
{
    if n > 0 {
        lemma_others(q, top, b, (n - 1) as nat, i);
        assert(q[n - 1] <= top);
        lemma_weight(top - q[n - 1], top - q[n - 1], b);
    }
}

proof fn lemma_others_same(q: Seq<i128>, r: Seq<i128>, top: int, b: int, n: nat, i: int)
    requires
        n <= q.len() == r.len(),
        forall|j: int| 0 <= j < q.len() && j != i ==> #[trigger] r[j] == q[j],
    ensures
        others(q, top, b, n, i) == others(r, top, b, n, i),
    decreases n,
{
    if n > 0 {
        lemma_others_same(q, r, top, b, (n - 1) as nat, i);
        if i != n - 1 {
            assert(r[n - 1] == q[n - 1]);
        }
    }
}

/// What the other outcomes lose when the leader gains `s` shares.
proof fn lemma_others_step(
    q: Seq<i128>,
    r: Seq<i128>,
    top: int,
    s: int,
    b: int,
    n: nat,
    i: int,
)
    requires
        b > 0,
        s > 0,
        n <= q.len() == r.len(),
        forall|j: int| 0 <= j < q.len() ==> #[trigger] q[j] <= top,
        forall|j: int| 0 <= j < q.len() && j != i ==> #[trigger] r[j] == q[j],
    ensures
        ({
            let rest = others(q, top, b, n, i);
            let less = others(r, top + s, b, n, i);
            &&& 0 <= less <= rest
            &&& (rest - less) * b <= rest * s + 20_000 * (n * b)
            &&& (rest - less) * b >= less * s - 20_000 * (n * b)
        }),
    decreases n,
{
    if n > 0 {
        let before = (n - 1) as nat;
        lemma_others_step(q, r, top, s, b, before, i);
        let rest = others(q, top, b, before, i);
        let less = others(r, top + s, b, before, i);
        assert(n * b == before * b + b) by (nonlinear_arith)
            requires
                n == before + 1,
        ;
        if i != n - 1 {
            assert(r[n - 1] == q[n - 1]);
            assert(q[n - 1] <= top);
            let gap = top - q[n - 1];
            lemma_weight_is_exponential(gap, gap + s, b);
            lemma_weight(gap, gap + s, b);
            let (v, w) = (weight(gap, b), weight(gap + s, b));
            assert((rest + v - (less + w)) * b == (rest - less) * b + v * b - w * b)
                by (nonlinear_arith);
            assert((rest + v) * s == rest * s + v * s) by (nonlinear_arith);
            assert((less + w) * s == less * s + w * s) by (nonlinear_arith);
            assert(w * (b + s) == w * b + w * s) by (nonlinear_arith);
            assert(v * (b - s) == v * b - v * s) by (nonlinear_arith);
            assert((v + 20_000) * b == v * b + 20_000 * b) by (nonlinear_arith);
        }
    } else {
        assert(0 * b == 0 && 0 * s == 0) by (nonlinear_arith);
    }
}

proof fn lemma_price_bounds(q: Seq<i128>, b: int, i: int)
    requires
        quantities(q),
        b > 0,
        0 <= i < q.len(),
    ensures
        ({
            let w = weight(peak(q) - q[i], b);
            let sum = weights(q, peak(q), b, q.len());
            let p = price(q, b, i);
            0 <= p <= SCALE && p * sum <= w * SCALE < (p + 1) * sum
        }),
{
    lemma_weights(q, b);
    lemma_price_range(q, b, i);
    let w = weight(peak(q) - q[i], b);
    let sum = weights(q, peak(q), b, q.len());
    let p = price(q, b, i);
    let scale = SCALE as int;
    assert(p * sum <= w * scale < (p + 1) * sum) by (nonlinear_arith)
        requires
            p == w * scale / sum,
            sum > 0,
    ;
}

proof fn lemma_moved(q: Seq<i128>, outcome: u32, s: int)
    requires
        quantities(q),
        outcome < q.len(),
        s > 0,
        fits(q[outcome as int] + s),
    ensures
        ({
            let i = outcome as int;
            let r = moved(q, outcome, s);
            &&& quantities(r)
            &&& r.len() == q.len()
            &&& r[i] == q[i] + s
            &&& forall|j: int| 0 <= j < q.len() && j != i ==> #[trigger] r[j] == q[j]
            &&& peak(r) == if q[i] + s <= peak(q) {
                peak(q)
            } else {
                q[i] + s
            }
        }),
{
    let i = outcome as int;
    let r = moved(q, outcome, s);
    lemma_peak(q);
    lemma_peak(r);
    assert forall|j: int| 0 <= j < r.len() implies #[trigger] r[j] >= 0 by {
        assert(q[j] >= 0);
    }
    let k = choose|k: int| 0 <= k < r.len() && #[trigger] r[k] == peak(r);
    let j = choose|j: int| 0 <= j < q.len() && #[trigger] q[j] == peak(q);
    assert(q[k] <= peak(q));
    assert(r[i] <= peak(r));
    assert(r[j] <= peak(r));
}

/// The charge for catching up with the leader.
proof fn lemma_catching_up(q: Seq<i128>, b: int, outcome: u32, s: int)
    requires
        quantities(q),
        b > 0,
        outcome < q.len(),
        s > 0,
        q[outcome as int] + s <= peak(q),
    ensures
        ({
            let charge = cost(moved(q, outcome, s), b) - cost(q, b);
            let p = price(q, b, outcome as int);
            &&& charge * b * SCALE <= s * p * b + s * s * SCALE + b * (2 * s + b + SCALE)
            &&& charge * b * SCALE >= s * p * b - s * s * SCALE - b * (2 * s + b + SCALE)
            &&& price(moved(q, outcome, s), b, outcome as int) * b <= (p + 2) * b + SCALE * s
        }),
{
    let i = outcome as int;
    let r = moved(q, outcome, s);
    lemma_peak(q);
    lemma_moved(q, outcome, s);
    lemma_peak(r);
    lemma_weights(q, b);
    lemma_weights(r, b);
    let top = peak(q);
    let n = q.len();
    let w = weight(top - q[i], b);
    let v = weight(top - r[i], b);
    let sum = weights(q, top, b, n);
    let after = weights(r, top, b, n);
    lemma_others(q, top, b, n, i);
    lemma_others(r, top, b, n, i);
    lemma_others_same(q, r, top, b, n, i);
    lemma_weight(top - r[i], top - q[i], b);
    lemma_weight_is_exponential(top - r[i], top - q[i], b);
    assert(w * (b + s) == w * b + w * s) by (nonlinear_arith);
    assert(v * (b - s) == v * b - v * s) by (nonlinear_arith);
    assert((v + 20_000) * b == v * b + 20_000 * b) by (nonlinear_arith);
    assert((v - w) * b == v * b - w * b) by (nonlinear_arith);
    assert(n * ONE <= 8 * ONE) by (nonlinear_arith)
        requires
            n <= 8,
            ONE > 0,
    ;
    lemma_log_step(sum, after);
    lemma_log_bounds(sum);
    lemma_log_bounds(after);
    let (l, m) = (log_of(sum), log_of(after));
    let x = lemma_cost_part(b, l);
    let y = lemma_cost_part(b, m);
    assert(b * (m - l) == b * m - b * l) by (nonlinear_arith);
    lemma_price_bounds(q, b, i);
    lemma_price_bounds(r, b, i);
    let (p, z) = (price(q, b, i), price(r, b, i));
    let charge = cost(r, b) - cost(q, b);
    assert(charge == y - x);
    lemma_trailing_charge(sum, after, w, v, s, b, m - l, charge, p);
    // z * sum <= z * after <= v * scale
    let scale = SCALE as int;
    assert(z * sum <= v * scale) by (nonlinear_arith)
        requires
            z * after <= v * scale,
            z >= 0,
            sum <= after,
    ;
    assert((z * sum) * b <= (v * scale) * b) by (nonlinear_arith)
        requires
            z * sum <= v * scale,
            b > 0,
    ;
    assert((v * scale) * b == scale * (v * b)) by (nonlinear_arith);
    assert(scale * (v * b) <= scale * (w * b + v * s + 20_000 * b)) by (nonlinear_arith)
        requires
            v * b <= w * b + v * s + 20_000 * b,
            scale > 0,
    ;
    assert(scale * (w * b + v * s + 20_000 * b) == (w * scale) * b + v * (scale * s) + (20_000
        * scale) * b) by (nonlinear_arith);
    assert((w * scale) * b <= ((p + 1) * sum) * b) by (nonlinear_arith)
        requires
            w * scale <= (p + 1) * sum,
            b > 0,
    ;
    assert(v * (scale * s) <= sum * (scale * s)) by (nonlinear_arith)
        requires
            v <= sum,
            scale > 0,
            s > 0,
    ;
    assert((20_000 * scale) * b <= sum * b) by (nonlinear_arith)
        requires
            20_000 * scale <= sum,
            b > 0,
    ;
    assert((z * sum) * b == sum * (z * b)) by (nonlinear_arith);
    assert(((p + 1) * sum) * b + sum * (scale * s) + sum * b == sum * ((p + 2) * b + scale * s))
        by (nonlinear_arith);
    assert(z * b <= (p + 2) * b + scale * s) by (nonlinear_arith)
        requires
            sum * (z * b) <= sum * ((p + 2) * b + scale * s),
            sum > 0,
    ;
}

/// The charge for extending a lead.
proof fn lemma_extending_lead(q: Seq<i128>, b: int, outcome: u32, s: int)
    requires
        quantities(q),
        b > 0,
        outcome < q.len(),
        s > 0,
        q[outcome as int] == peak(q),
        fits(q[outcome as int] + s),
    ensures
        ({
            let charge = cost(moved(q, outcome, s), b) - cost(q, b);
            let p = price(q, b, outcome as int);
            &&& charge * b * SCALE <= s * p * b + s * s * SCALE + b * (3 * s + 2 * b + SCALE)
            &&& charge * b * SCALE >= s * p * b - 7 * (s * s) * SCALE - b * (3 * s + 2 * b
                + SCALE)
        }),
{
    let i = outcome as int;
    let r = moved(q, outcome, s);
    lemma_peak(q);
    lemma_moved(q, outcome, s);
    lemma_peak(r);
    lemma_weights(q, b);
    lemma_weights(r, b);
    let top = peak(q);
    let n = q.len();
    assert(peak(r) == top + s);
    let sum = weights(q, top, b, n);
    let after = weights(r, top + s, b, n);
    lemma_others(q, top, b, n, i);
    lemma_others(r, top + s, b, n, i);
    lemma_others_step(q, r, top, s, b, n, i);
    lemma_weight(0, 0, b);
    let rest = others(q, top, b, n, i);
    let less = others(r, top + s, b, n, i);
    assert(sum == ONE + rest && after == ONE + less);
    assert((n - 1) * ONE <= 7 * ONE) by (nonlinear_arith)
        requires
            n <= 8,
            ONE > 0,
    ;
    assert(20_000 * (n * b) <= 160_000 * b) by (nonlinear_arith)
        requires
            n <= 8,
            b > 0,
    ;
    lemma_log_step(after, sum);
    lemma_log_bounds(sum);
    lemma_log_bounds(after);
    let (l, m) = (log_of(sum), log_of(after));
    let x = lemma_cost_part(b, l);
    let y = lemma_cost_part(b, m);
    assert(b * (l - m) == b * l - b * m) by (nonlinear_arith);
    lemma_price_bounds(q, b, i);
    let p = price(q, b, i);
    let charge = cost(r, b) - cost(q, b);
    assert(charge - s == y - x);
    lemma_leading_charge(rest, less, s, b, l - m, charge, p);
}

/// A purchase is charged the price of the outcome for every share, up to what the
/// price moves meanwhile and rounding: the charge differs from shares times price
/// by at most the square of the shares over `b` (seven times that, where an
/// outcome extends its lead), two units, and five ten-millionths of the shares and
/// of `b`. As charges add up over parts of a purchase, this fixes the charge for
/// purchases of any size.
pub proof fn lemma_charge_follows_price(q: Seq<i128>, b: i128, outcome: u32, shares: i128)
    requires
        quantities(q),
        b > 0,
        outcome < q.len(),
        shares > 0,
        fits(q[outcome as int] + shares),
    ensures
        follows_price(
            cost(moved(q, outcome, shares as int), b as int) - cost(q, b as int),
            price(q, b as int, outcome as int),
            shares as int,
            b as int,
        ),
        purchase_cost(q, b, outcome, shares) matches Ok(charge) ==> follows_price(
            charge as int,
            price(q, b as int, outcome as int),
            shares as int,
            b as int,
        ),
        sale_value(moved(q, outcome, shares as int), b, outcome, shares) matches Ok(value)
            ==> follows_price(
            value as int,
            price(q, b as int, outcome as int),
            shares as int,
            b as int,
        ),
{
    let i = outcome as int;
    let s = shares as int;
    let c = b as int;
    let top = peak(q);
    lemma_peak(q);
    lemma_price_range(q, c, i);
    let p = price(q, c, i);
    assert(q[i] <= top);
    let r = moved(q, outcome, s);
    let charge = cost(r, c) - cost(q, c);
    if q[i] + s <= top {
        lemma_catching_up(q, c, outcome, s);
        lemma_looser(charge, p, s, c, 2, 1, 1, 1);
    } else if q[i] == top {
        lemma_extending_lead(q, c, outcome, s);
        lemma_looser(charge, p, s, c, 3, 2, 1, 7);
    } else {
        let first = top - q[i];
        let second = s - first;
        let mid = moved(q, outcome, first);
        lemma_moved(q, outcome, first);
        lemma_catching_up(q, c, outcome, first);
        assert(moved(mid, outcome, second) =~= r);
        lemma_extending_lead(mid, c, outcome, second);
        lemma_price_rises(q, c, outcome, first as i128);
        let x = cost(mid, c) - cost(q, c);
        let y = cost(r, c) - cost(mid, c);
        let z = price(mid, c, i);
        lemma_two_charges(x, y, p, z, first, second, c);
    }
    assert(moved(r, outcome, -s) =~= q);
}

proof fn lemma_looser(
    charge: int,
    p: int,
    s: int,
    b: int,
    of_shares: int,
    of_b: int,
    of_scale: int,
    of_square: int,
)
    requires
        s > 0,
        b > 0,
        of_shares <= 5,
        of_b <= 4,
        of_scale <= 2,
        of_square <= 7,
        charge * b * SCALE <= s * p * b + s * s * SCALE + b * (of_shares * s + of_b * b + of_scale
            * SCALE),
        charge * b * SCALE >= s * p * b - of_square * (s * s) * SCALE - b * (of_shares * s + of_b
            * b + of_scale * SCALE),
    ensures
        follows_price(charge, p, s, b),
{
    let scale = SCALE as int;
    assert(b * (of_shares * s + of_b * b + of_scale * scale) <= b * (5 * s + 4 * b + 2 * scale))
        by (nonlinear_arith)
        requires
            s > 0,
            b > 0,
            scale > 0,
            of_shares <= 5,
            of_b <= 4,
            of_scale <= 2,
    ;
    assert(of_square * (s * s) * scale <= 7 * (s * s) * scale) by (nonlinear_arith)
        requires
            of_square <= 7,
            s > 0,
            scale > 0,
    ;
}

proof fn lemma_two_charges(x: int, y: int, p: int, z: int, first: int, second: int, b: int)
    requires
        first > 0,
        second > 0,
        b > 0,
        p <= z,
        z * b <= (p + 2) * b + SCALE * first,
        x * b * SCALE <= first * p * b + first * first * SCALE + b * (2 * first + b + SCALE),
        x * b * SCALE >= first * p * b - first * first * SCALE - b * (2 * first + b + SCALE),
        y * b * SCALE <= second * z * b + second * second * SCALE + b * (3 * second + 2 * b
            + SCALE),
        y * b * SCALE >= second * z * b - 7 * (second * second) * SCALE - b * (3 * second + 2 * b
            + SCALE),
    ensures
        follows_price(x + y, p, first + second, b),
{
    let scale = SCALE as int;
    let s = first + second;
    assert((x + y) * b * scale == x * b * scale + y * b * scale) by (nonlinear_arith);
    assert(s * p * b == first * p * b + second * p * b) by (nonlinear_arith)
        requires
            s == first + second,
    ;
    assert(s * s == first * first + 2 * (first * second) + second * second) by (nonlinear_arith)
        requires
            s == first + second,
    ;
    assert(first * second > 0) by (nonlinear_arith)
        requires
            first > 0,
            second > 0,
    ;
    // Above: second * z * b <= second * p * b + 2 * second * b + scale * first * second.
    assert(second * (z * b) <= second * ((p + 2) * b + scale * first)) by (nonlinear_arith)
        requires
            z * b <= (p + 2) * b + scale * first,
            second > 0,
    ;
    assert(second * (z * b) == second * z * b) by (nonlinear_arith);
    assert(second * ((p + 2) * b + scale * first) == second * p * b + b * (2 * second) + (first
        * second) * scale) by (nonlinear_arith);
    assert(b * (2 * first + b + scale) + b * (3 * second + 2 * b + scale) + b * (2 * second) <= b
        * (5 * s + 4 * b + 2 * scale)) by (nonlinear_arith)
        requires
            s == first + second,
            first > 0,
            second > 0,
            b > 0,
    ;
    assert(s * s * scale == first * first * scale + 2 * (first * second) * scale + second * second
        * scale) by (nonlinear_arith)
        requires
            s * s == first * first + 2 * (first * second) + second * second,
    ;
    assert((first * second) * scale >= 0) by (nonlinear_arith)
        requires
            first * second > 0,
            scale > 0,
    ;
    // Below: second * z * b >= second * p * b.
    assert(second * z * b >= second * p * b) by (nonlinear_arith)
        requires
            p <= z,
            second > 0,
            b > 0,
    ;
    assert(b * (2 * first + b + scale) + b * (3 * second + 2 * b + scale) <= b * (5 * s + 4 * b
        + 2 * scale)) by (nonlinear_arith)
        requires
            s == first + second,
            first > 0,
            second > 0,
            b > 0,
    ;
    assert(7 * (s * s) * scale >= first * first * scale + 7 * (second * second) * scale)
        by (nonlinear_arith)
        requires
            s * s == first * first + 2 * (first * second) + second * second,
            first * second > 0,
            scale > 0,
    ;
}

/// Buying shares at once or in two parts is charged the same, and giving shares
/// back is worth what buying them costs.
pub proof fn lemma_charges_add_up(
    q: Seq<i128>,
    b: i128,
    outcome: u32,
    first: i128,
    second: i128,
)
    requires
        quantities(q),
        b > 0,
        outcome < q.len(),
        first > 0,
        second > 0,
        fits(q[outcome as int] + first + second),
    ensures
        ({
            let mid = moved(q, outcome, first as int);
            let one = purchase_cost(q, b, outcome, first);
            let two = purchase_cost(mid, b, outcome, second);
            let whole = purchase_cost(q, b, outcome, (first + second) as i128);
            &&& one is Ok && two is Ok && whole is Ok ==> whole->Ok_0 == one->Ok_0 + two->Ok_0
            &&& one is Ok && two is Ok && fits(one->Ok_0 + two->Ok_0) && first + second
                <= i128::MAX ==> whole is Ok
            &&& one is Ok ==> sale_value(mid, b, outcome, first) == one
        }),
{
    let mid = moved(q, outcome, first as int);
    assert(moved(mid, outcome, second as int) =~= moved(q, outcome, first + second));
    assert(moved(mid, outcome, -first) =~= q);
}

/// How far the price of a trailing outcome moves, as a relation of numbers.
proof fn lemma_trailing_move(
    k: int,
    sum: int,
    after: int,
    w: int,
    v: int,
    s: int,
    b: int,
    p: int,
    z: int,
)
    requires
        k == 10_000_000,
        1_000_000_000_000 <= sum,
        after == sum + (v - w),
        0 <= w <= v,
        s > 0,
        b > 0,
        0 <= p <= k,
        0 <= z < k,
        (v - w) * b >= w * s - 20_000 * b,
        p * sum <= w * k < (p + 1) * sum,
        v * k < (z + 1) * after,
    ensures
        z * b * k >= p * b * k + (k - z) * p * s - k * (5 * b + 2 * s),
{
    let f = k - z - 1;
    // (z + 1) * sum > w * k + (v - w) * f
    assert((z + 1) * after == (z + 1) * sum + (z + 1) * (v - w)) by (nonlinear_arith)
        requires
            after == sum + (v - w),
    ;
    assert(v * k - (z + 1) * (v - w) == w * k + (v - w) * f) by (nonlinear_arith)
        requires
            f == k - z - 1,
    ;
    let lead = (z + 1) * sum;
    assert(lead >= w * k + (v - w) * f);
    assert(lead * b >= (w * k) * b + ((v - w) * b) * f) by (nonlinear_arith)
        requires
            lead >= w * k + (v - w) * f,
            b > 0,
    ;
    assert(((v - w) * b) * f >= (w * s - 20_000 * b) * f) by (nonlinear_arith)
        requires
            (v - w) * b >= w * s - 20_000 * b,
            f >= 0,
    ;
    assert((w * s - 20_000 * b) * f == (w * s) * f - 20_000 * (b * f)) by (nonlinear_arith);
    assert(b * f <= b * k) by (nonlinear_arith)
        requires
            f <= k,
            b > 0,
    ;
    let low = (w * k) * b + (w * s) * f - 20_000 * (b * k);
    assert(lead * b >= low);
    assert((lead * b) * k >= low * k) by (nonlinear_arith)
        requires
            lead * b >= low,
            k > 0,
    ;
    lemma_distribute(k, (w * k) * b, (w * s) * f, -(20_000 * (b * k)), 0, 0);
    assert(low * k == k * low) by (nonlinear_arith);
    assert(k * ((w * k) * b) == (w * k) * (b * k)) by (nonlinear_arith);
    assert(k * ((w * s) * f) == (w * k) * (s * f)) by (nonlinear_arith);
    assert(k * -(20_000 * (b * k)) == -((20_000 * k) * (b * k))) by (nonlinear_arith);
    assert(low * k == (w * k) * (b * k) + (w * k) * (s * f) - (20_000 * k) * (b * k));
    assert(b * k > 0 && s * f >= 0) by (nonlinear_arith)
        requires
            b > 0,
            k > 0,
            s > 0,
            f >= 0,
    ;
    assert((w * k) * (b * k) >= (p * sum) * (b * k)) by (nonlinear_arith)
        requires
            w * k >= p * sum,
            b * k > 0,
    ;
    assert((w * k) * (s * f) >= (p * sum) * (s * f)) by (nonlinear_arith)
        requires
            w * k >= p * sum,
            s * f >= 0,
    ;
    assert((20_000 * k) * (b * k) <= sum * (b * k)) by (nonlinear_arith)
        requires
            20_000 * k <= sum,
            b * k > 0,
    ;
    let right = p * (b * k) + p * (s * f) - b * k;
    assert((p * sum) * (b * k) + (p * sum) * (s * f) - sum * (b * k) == sum * right)
        by (nonlinear_arith)
        requires
            right == p * (b * k) + p * (s * f) - b * k,
    ;
    assert((lead * b) * k == sum * ((z + 1) * (b * k))) by (nonlinear_arith)
        requires
            lead == (z + 1) * sum,
    ;
    assert((z + 1) * (b * k) >= right) by (nonlinear_arith)
        requires
            sum * ((z + 1) * (b * k)) >= sum * right,
            sum > 0,
    ;
    lemma_move_tail(k, s, b, p, z, f);
}

/// The same relation with one unit of rounding taken out of the factors.
proof fn lemma_move_tail(k: int, s: int, b: int, p: int, z: int, f: int)
    requires
        k == 10_000_000,
        s > 0,
        b > 0,
        0 <= p <= k,
        f == k - z - 1,
        (z + 1) * (b * k) >= p * (b * k) + p * (s * f) - 3 * (b * k),
    ensures
        z * b * k >= p * b * k + (k - z) * p * s - k * (5 * b + 2 * s),
{
    assert((z + 1) * (b * k) == z * b * k + b * k) by (nonlinear_arith);
    assert(p * (b * k) == p * b * k) by (nonlinear_arith);
    assert(p * (s * f) == (k - z) * p * s - p * s) by (nonlinear_arith)
        requires
            f == k - z - 1,
    ;
    assert(p * s <= k * s) by (nonlinear_arith)
        requires
            p <= k,
            s > 0,
    ;
    assert(k * (5 * b + 2 * s) == 5 * (b * k) + 2 * (k * s)) by (nonlinear_arith);
    assert(b * k > 0 && k * s > 0) by (nonlinear_arith)
        requires
            b > 0,
            k > 0,
            s > 0,
    ;
}

/// How far the price of a leading outcome moves, as a relation of numbers.
proof fn lemma_leading_move(
    one: int,
    k: int,
    rest: int,
    less: int,
    s: int,
    b: int,
    p: int,
    z: int,
)
    requires
        one == 1_000_000_000_000,
        k == 10_000_000,
        0 <= less <= rest,
        s > 0,
        b > 0,
        0 <= p <= k,
        0 <= z < k,
        (rest - less) * b >= less * s - 160_000 * b,
        p * (one + rest) <= one * k,
        one * k < (z + 1) * (one + less),
    ensures
        z * b * k >= p * b * k + (k - z) * p * s - k * (5 * b + 2 * s),
{
    let f = k - z - 1;
    let sum = one + rest;
    let y = z + 1;
    assert(y * (one + less) == y * one + y * less) by (nonlinear_arith);
    assert(y * sum == y * (one + less) + y * (rest - less)) by (nonlinear_arith)
        requires
            sum == one + rest,
    ;
    let lead = y * sum;
    assert(lead * b >= (one * k) * b + y * ((rest - less) * b)) by (nonlinear_arith)
        requires
            lead >= one * k + y * (rest - less),
            b > 0,
    ;
    assert(y * ((rest - less) * b) >= y * (less * s - 160_000 * b)) by (nonlinear_arith)
        requires
            (rest - less) * b >= less * s - 160_000 * b,
            y > 0,
    ;
    assert(y * (less * s - 160_000 * b) == (y * less) * s - 160_000 * (b * y))
        by (nonlinear_arith);
    assert(one * k - y * one == one * f) by (nonlinear_arith)
        requires
            f == k - y,
    ;
    assert((y * less) * s >= (one * f) * s) by (nonlinear_arith)
        requires
            y * less >= one * f,
            s > 0,
    ;
    assert(b * y <= b * k) by (nonlinear_arith)
        requires
            y <= k,
            b > 0,
    ;
    let low = (one * k) * b + (one * f) * s - 160_000 * (b * k);
    assert(lead * b >= low);
    assert((lead * b) * k >= low * k) by (nonlinear_arith)
        requires
            lead * b >= low,
            k > 0,
    ;
    lemma_distribute(k, (one * k) * b, (one * f) * s, -(160_000 * (b * k)), 0, 0);
    assert(low * k == k * low) by (nonlinear_arith);
    assert(k * ((one * k) * b) == (one * k) * (b * k)) by (nonlinear_arith);
    assert(k * ((one * f) * s) == (one * k) * (s * f)) by (nonlinear_arith);
    assert(k * -(160_000 * (b * k)) == -((160_000 * k) * (b * k))) by (nonlinear_arith);
    assert(low * k == (one * k) * (b * k) + (one * k) * (s * f) - (160_000 * k) * (b * k));
    assert(b * k > 0 && s * f >= 0) by (nonlinear_arith)
        requires
            b > 0,
            k > 0,
            s > 0,
            f >= 0,
    ;
    assert((one * k) * (b * k) >= (p * sum) * (b * k)) by (nonlinear_arith)
        requires
            one * k >= p * sum,
            b * k > 0,
    ;
    assert((one * k) * (s * f) >= (p * sum) * (s * f)) by (nonlinear_arith)
        requires
            one * k >= p * sum,
            s * f >= 0,
    ;
    assert((160_000 * k) * (b * k) <= 3 * (sum * (b * k))) by (nonlinear_arith)
        requires
            160_000 * k <= 3 * sum,
            b * k > 0,
    ;
    let right = p * (b * k) + p * (s * f) - 3 * (b * k);
    assert((p * sum) * (b * k) + (p * sum) * (s * f) - 3 * (sum * (b * k)) == sum * right)
        by (nonlinear_arith)
        requires
            right == p * (b * k) + p * (s * f) - 3 * (b * k),
    ;
    assert((lead * b) * k == sum * (y * (b * k))) by (nonlinear_arith)
        requires
            lead == y * sum,
    ;
    assert(y * (b * k) >= right) by (nonlinear_arith)
        requires
            sum * (y * (b * k)) >= sum * right,
            sum > 0,
    ;
    lemma_move_tail(k, s, b, p, z, f);
}

/// A purchase that keeps the leader or is the leader's own moves the price.
proof fn lemma_simple_move(q: Seq<i128>, b: int, outcome: u32, s: int)
    requires
        quantities(q),
        b > 0,
        outcome < q.len(),
        s > 0,
        fits(q[outcome as int] + s),
        q[outcome as int] + s <= peak(q) || q[outcome as int] == peak(q),
    ensures
        ({
            let p = price(q, b, outcome as int);
            let z = price(moved(q, outcome, s), b, outcome as int);
            &&& p <= z <= SCALE
            &&& z * b * SCALE >= p * b * SCALE + (SCALE - z) * p * s - SCALE * (5 * b + 2 * s)
        }),
{
    let i = outcome as int;
    let r = moved(q, outcome, s);
    let k = SCALE as int;
    lemma_peak(q);
    lemma_moved(q, outcome, s);
    lemma_peak(r);
    lemma_weights(q, b);
    lemma_weights(r, b);
    lemma_price_bounds(q, b, i);
    lemma_price_bounds(r, b, i);
    lemma_price_rises(q, b, outcome, s as i128);
    let (p, z) = (price(q, b, i), price(r, b, i));
    let top = peak(q);
    let n = q.len();
    if z == k {
        assert(z * b * k >= p * b * k) by (nonlinear_arith)
            requires
                p <= z,
                b > 0,
                k > 0,
        ;
        assert((k - z) * p * s == 0) by (nonlinear_arith)
            requires
                k - z == 0,
        ;
        assert(k * (5 * b + 2 * s) >= 0) by (nonlinear_arith)
            requires
                k > 0,
                b > 0,
                s > 0,
        ;
    } else if q[i] + s <= top {
        let w = weight(top - q[i], b);
        let v = weight(top - r[i], b);
        lemma_others(q, top, b, n, i);
        lemma_others(r, top, b, n, i);
        lemma_others_same(q, r, top, b, n, i);
        lemma_weight(top - r[i], top - q[i], b);
        lemma_weight_is_exponential(top - r[i], top - q[i], b);
        assert(w * (b + s) == w * b + w * s) by (nonlinear_arith);
        assert((v + 20_000) * b == v * b + 20_000 * b) by (nonlinear_arith);
        assert((v - w) * b == v * b - w * b) by (nonlinear_arith);
        lemma_trailing_move(
            k,
            weights(q, top, b, n),
            weights(r, top, b, n),
            w,
            v,
            s,
            b,
            p,
            z,
        );
    } else {
        assert(peak(r) == top + s);
        lemma_others(q, top, b, n, i);
        lemma_others(r, top + s, b, n, i);
        lemma_others_step(q, r, top, s, b, n, i);
        lemma_weight(0, 0, b);
        assert(20_000 * (n * b) <= 160_000 * b) by (nonlinear_arith)
            requires
                n <= 8,
                b > 0,
        ;
        lemma_leading_move(
            ONE as int,
            k,
            others(q, top, b, n, i),
            others(r, top + s, b, n, i),
            s,
            b,
            p,
            z,
        );
    }
}

/// Buying shares of an outcome raises its price, by at least the price before
/// times what the price after leaves to one, times the shares over `b`, up to
/// rounding: as long as an outcome has a price and the others have one, the price
/// keeps moving however far the outcome leads or trails.
pub proof fn lemma_purchase_moves_price(q: Seq<i128>, b: int, outcome: u32, shares: i128)
    requires
        quantities(q),
        b > 0,
        outcome < q.len(),
        shares > 0,
        fits(q[outcome as int] + shares),
    ensures
        ({
            let before = price(q, b, outcome as int);
            let after = price(moved(q, outcome, shares as int), b, outcome as int);
            after * b * 10_000_000 >= before * b * 10_000_000 + (10_000_000 - after) * before
                * shares - 10_000_000 * (10 * b + 2 * shares)
        }),
{
    let i = outcome as int;
    let s = shares as int;
    let k = SCALE as int;
    let top = peak(q);
    lemma_peak(q);
    assert(q[i] <= top);
    lemma_price_range(q, b, i);
    assert(k * (5 * b + 2 * s) <= k * (10 * b + 2 * s)) by (nonlinear_arith)
        requires
            k > 0,
            b > 0,
    ;
    if q[i] + s <= top || q[i] == top {
        lemma_simple_move(q, b, outcome, s);
    } else {
        let first = top - q[i];
        let second = s - first;
        let mid = moved(q, outcome, first);
        let r = moved(q, outcome, s);
        lemma_moved(q, outcome, first);
        lemma_simple_move(q, b, outcome, first);
        assert(moved(mid, outcome, second) =~= r);
        lemma_simple_move(mid, b, outcome, second);
        let (p, x, z) = (price(q, b, i), price(mid, b, i), price(r, b, i));
        assert((k - x) * p * first >= (k - z) * p * first) by (nonlinear_arith)
            requires
                x <= z,
                p >= 0,
                first > 0,
        ;
        assert((k - z) * x * second >= (k - z) * p * second) by (nonlinear_arith)
            requires
                p <= x,
                z <= k,
                second > 0,
        ;
        assert((k - z) * p * s == (k - z) * p * first + (k - z) * p * second) by (nonlinear_arith)
            requires
                s == first + second,
        ;
        assert(k * (5 * b + 2 * first) + k * (5 * b + 2 * second) == k * (10 * b + 2 * s))
            by (nonlinear_arith)
            requires
                s == first + second,
        ;
    }
}

/// However far an outcome trails, up to 27 times `b`, it keeps a weight.
pub proof fn lemma_weight_lasts(gap: int, b: int)
    requires
        0 <= gap <= 27 * b,
        b > 0,
    ensures
        weight(gap, b) > 0,
{
    let far = 27_000_000_000_000int;
    lemma_decay_lasts();
    let x = gap * ONE / b;
    assert(0 <= x <= far) by (nonlinear_arith)
        requires
            x == gap * ONE / b,
            0 <= gap <= 27 * b,
            b > 0,
            ONE == 1_000_000_000_000,
            far == 27_000_000_000_000,
    ;
    lemma_decay_antitone(x, far);
    assert(gap < 28 * b) by (nonlinear_arith)
        requires
            gap <= 27 * b,
            b > 0,
    ;
}

/// Where one outcome leads all others by at least 28 times `b`, the cost of the
/// market is the leader's quantity.
pub proof fn lemma_runaway_cost(q: Seq<i128>, b: int, leader: int)
    requires
        quantities(q),
        b > 0,
        0 <= leader < q.len(),
        forall|j: int|
            0 <= j < q.len() && j != leader ==> q[leader] - (#[trigger] q[j]) >= 28 * b,
    ensures
        cost(q, b) == q[leader],
{
    lemma_peak(q);
    let top = peak(q);
    let k = choose|k: int| 0 <= k < q.len() && #[trigger] q[k] == top;
    assert(q[leader] <= top);
    assert(28 * b > 0) by (nonlinear_arith)
        requires
            b > 0,
    ;
    assert(top == q[leader]);
    lemma_others(q, top, b, q.len(), leader);
    lemma_others_gone(q, top, b, q.len(), leader);
    lemma_weight(0, 0, b);
    let sum = weights(q, top, b, q.len());
    assert(sum == ONE);
    lemma_log_bounds(sum);
    let l = log_of(sum);
    lemma_exp_zero();
    if l > 0 {
        lemma_exp_monotone(1, l);
        lemma_exp_step(0, 1);
        lemma_exp_one();
    }
    assert(b * 0 / (ONE as int) == 0) by (nonlinear_arith);
}

proof fn lemma_others_gone(q: Seq<i128>, top: int, b: int, n: nat, i: int)
    requires
        b > 0,
        n <= q.len(),
        forall|j: int| 0 <= j < q.len() && j != i ==> top - (#[trigger] q[j]) >= 28 * b,
    ensures
        others(q, top, b, n, i) == 0,
    decreases n,
{
    if n > 0 {
        lemma_others_gone(q, top, b, (n - 1) as nat, i);
        if i != n - 1 {
            assert(top - q[n - 1] >= 28 * b);
        }
    }
}

} // verus!
