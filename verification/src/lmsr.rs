//! The logarithmic market scoring rule.
//!
//! With `q` shares outstanding per outcome and liquidity parameter `b`, a
//! market's cost is `b * ln(sum(exp(q_i / b)))`, and the price of an outcome is
//! its share of the sum. Both are computed in fixed point relative to the
//! largest quantity, so that no exponential exceeds one.
use vstd::prelude::*;

use crate::checked_math::{cadd, cmul, fits};
use crate::types::{Error, MAX_OUTCOMES};

verus! {

/// One, in the fixed point of the exponentials.
pub const ONE: i128 = 1_000_000_000_000;

/// One, in the fixed point of prices and token amounts.
pub const SCALE: i128 = 10_000_000;

/// Multiple of `b` from which on an outcome's weight counts as nothing.
pub const CUTOFF: i128 = 28;

/// Number of terms of the exponential series after the first.
pub const TERMS: i128 = 40;

/// Term `k` of the exponential series at `x`, rounded down at every step.
pub open spec fn term(x: int, k: nat) -> int
    decreases k,
{
    if k == 0 {
        ONE as int
    } else {
        term(x, (k - 1) as nat) * x / (k * ONE)
    }
}

/// Sum of the first terms of the exponential series at `x`, up to term `k`.
pub open spec fn series(x: int, k: nat) -> int
    decreases k,
{
    if k == 0 {
        term(x, 0)
    } else {
        series(x, (k - 1) as nat) + term(x, k)
    }
}

/// `exp(x)` in fixed point.
pub open spec fn exp_of(x: int) -> int {
    series(x, TERMS as nat)
}

/// A product in fixed point, rounded down.
pub open spec fn times(x: int, y: int) -> int {
    x * y / (ONE as int)
}

/// `exp(-x)` in fixed point: the sixteenth power of `1 / exp(x / 16)`.
pub open spec fn decay(x: int) -> int {
    let root = ONE * ONE / exp_of(x / 16);
    let p2 = times(root, root);
    let p4 = times(p2, p2);
    let p8 = times(p4, p4);
    times(p8, p8)
}

/// `y` is the logarithm of `s`, rounded down to the fixed point.
pub open spec fn is_log(y: int, s: int) -> bool {
    0 <= y && exp_of(y) <= s < exp_of(y + 1)
}

/// `ln(s)` in fixed point, rounded down.
pub open spec fn log_of(s: int) -> int {
    choose|y: int| is_log(y, s)
}

/// The largest quantity.
pub open spec fn peak(q: Seq<i128>) -> int
    decreases q.len(),
{
    if q.len() <= 1 {
        q[0] as int
    } else {
        let rest = peak(q.drop_last());
        if q.last() > rest {
            q.last() as int
        } else {
            rest
        }
    }
}

/// Weight of an outcome that lies `gap` under the largest quantity:
/// `exp(-gap / b)`, or nothing from the cutoff on.
pub open spec fn weight(gap: int, b: int) -> int {
    if gap >= CUTOFF * b {
        0
    } else {
        decay(gap * ONE / b)
    }
}

/// Sum of the weights of the first `n` outcomes.
pub open spec fn weights(q: Seq<i128>, top: int, b: int, n: nat) -> int
    decreases n,
{
    if n == 0 {
        0
    } else {
        weights(q, top, b, (n - 1) as nat) + weight(top - q[n - 1], b)
    }
}

/// The gap of every outcome can be brought to fixed point.
pub open spec fn scalable(q: Seq<i128>, b: int) -> bool {
    forall|i: int|
        0 <= i < q.len() ==> peak(q) - (#[trigger] q[i]) >= CUTOFF * b || fits(
            (peak(q) - q[i]) * ONE,
        )
}

/// The cost of a market with these quantities.
pub open spec fn cost(q: Seq<i128>, b: int) -> int {
    peak(q) + b * log_of(weights(q, peak(q), b, q.len())) / (ONE as int)
}

/// The cost, or `Overflow` where an intermediate value does not fit.
pub open spec fn cost_result(q: Seq<i128>, b: int) -> Result<i128, Error> {
    if scalable(q, b) && fits(b * log_of(weights(q, peak(q), b, q.len()))) && fits(cost(q, b)) {
        Ok(cost(q, b) as i128)
    } else {
        Err(Error::Overflow)
    }
}

/// The price of an outcome.
pub open spec fn price(q: Seq<i128>, b: int, i: int) -> int {
    weight(peak(q) - q[i], b) * SCALE / weights(q, peak(q), b, q.len())
}

/// Quantities that the rule prices: one per outcome, none negative.
pub open spec fn quantities(q: Seq<i128>) -> bool {
    &&& 1 <= q.len() <= MAX_OUTCOMES
    &&& forall|i: int| 0 <= i < q.len() ==> #[trigger] q[i] >= 0
}

proof fn lemma_div_monotone(a: int, b: int, d: int)
    by (nonlinear_arith)
    requires
        a <= b,
        d > 0,
    ensures
        a / d <= b / d,
{
}

/// No term is negative, and none exceeds five within `0 ..= 3`.
proof fn lemma_term_bounds(x: int, k: nat)
    requires
        0 <= x <= 3 * ONE,
    ensures
        0 <= term(x, k) <= 5 * ONE,
        k == 1 ==> term(x, k) <= 3 * ONE,
    decreases k,
{
    if k > 0 {
        let p = term(x, (k - 1) as nat);
        lemma_term_bounds(x, (k - 1) as nat);
        let d = k * ONE;
        assert(d >= ONE) by (nonlinear_arith)
            requires
                k >= 1,
                d == k * ONE,
        ;
        if k == 1 {
            assert(p * x == ONE * x);
            assert(0 <= p * x / d <= 3 * ONE) by (nonlinear_arith)
                requires
                    p * x == ONE * x,
                    0 <= x <= 3 * ONE,
                    d == ONE,
            ;
        } else if k == 2 {
            assert(0 <= p * x <= 9 * ONE * ONE) by (nonlinear_arith)
                requires
                    0 <= p <= 3 * ONE,
                    0 <= x <= 3 * ONE,
            ;
            assert(0 <= p * x / d <= 5 * ONE) by (nonlinear_arith)
                requires
                    0 <= p * x <= 9 * ONE * ONE,
                    d == 2 * ONE,
            ;
        } else {
            assert(0 <= p * x / d <= p) by (nonlinear_arith)
                requires
                    0 <= p,
                    0 <= x <= 3 * ONE,
                    d == k * ONE,
                    k >= 3,
            ;
        }
    }
}

/// Terms grow with `x`.
proof fn lemma_term_monotone(x: int, y: int, k: nat)
    requires
        0 <= x <= y,
    ensures
        0 <= term(x, k) <= term(y, k),
    decreases k,
{
    if k > 0 {
        let p = term(x, (k - 1) as nat);
        let r = term(y, (k - 1) as nat);
        lemma_term_monotone(x, y, (k - 1) as nat);
        let d = k * ONE;
        assert(d > 0) by (nonlinear_arith)
            requires
                k >= 1,
                d == k * ONE,
        ;
        assert(0 <= p * x <= r * y) by (nonlinear_arith)
            requires
                0 <= p <= r,
                0 <= x <= y,
        ;
        lemma_div_monotone(p * x, r * y, d);
        lemma_div_monotone(0, p * x, d);
    }
}

/// Once a term has vanished, so have all that follow.
proof fn lemma_term_stays_zero(x: int, j: nat, k: nat)
    requires
        term(x, j) == 0,
        j <= k,
    ensures
        term(x, k) == 0,
        series(x, k) == series(x, j),
    decreases k,
{
    if j < k {
        lemma_term_stays_zero(x, j, (k - 1) as nat);
        let d = k * ONE;
        assert(d > 0) by (nonlinear_arith)
            requires
                k >= 1,
                d == k * ONE,
        ;
        assert(0int / d == 0) by (nonlinear_arith)
            requires
                d > 0,
        ;
    }
}

proof fn lemma_series_bounds(x: int, k: nat)
    requires
        0 <= x <= 3 * ONE,
    ensures
        ONE <= series(x, k) <= (k + 1) * (5 * ONE),
    decreases k,
{
    lemma_term_bounds(x, k);
    if k > 0 {
        lemma_series_bounds(x, (k - 1) as nat);
    }
}

proof fn lemma_series_monotone(x: int, y: int, k: nat)
    requires
        0 <= x <= y,
    ensures
        ONE <= series(x, k) <= series(y, k),
    decreases k,
{
    lemma_term_monotone(x, y, k);
    if k > 0 {
        lemma_series_monotone(x, y, (k - 1) as nat);
    }
}

/// The exponential grows with its argument and is at least one.
pub proof fn lemma_exp_monotone(x: int, y: int)
    requires
        0 <= x <= y,
    ensures
        ONE <= exp_of(x) <= exp_of(y),
{
    lemma_series_monotone(x, y, TERMS as nat);
}

/// `exp(0)` is one.
pub proof fn lemma_exp_zero()
    ensures
        exp_of(0) == ONE,
{
    assert(term(0, 1) == 0);
    lemma_term_stays_zero(0, 1, TERMS as nat);
    assert(series(0, 1) == series(0, 0) + term(0, 1));
}

/// `exp(3)` exceeds eight.
proof fn lemma_exp_three()
    ensures
        exp_of(3 * ONE) > 8 * ONE,
{
    let x: int = 3 * ONE;
    assert(term(x, 0) == ONE);
    assert(term(x, 1) == term(x, 0) * x / (1 * ONE));
    assert(ONE * x / (1 * ONE) == 3 * ONE);
    assert(term(x, 2) == term(x, 1) * x / (2 * ONE));
    assert((3 * ONE) * x / (2 * ONE) == 4_500_000_000_000) by (nonlinear_arith)
        requires
            x == 3 * ONE,
    ;
    assert(series(x, 1) == series(x, 0) + term(x, 1));
    assert(series(x, 2) == series(x, 1) + term(x, 2));
    lemma_series_grows(x, 2, TERMS as nat);
}

proof fn lemma_series_grows(x: int, j: nat, k: nat)
    requires
        0 <= x,
        j <= k,
    ensures
        series(x, j) <= series(x, k),
    decreases k,
{
    if j < k {
        lemma_series_grows(x, j, (k - 1) as nat);
        lemma_term_monotone(x, x, k);
    }
}

proof fn lemma_times(x: int, y: int)
    requires
        0 <= x <= y <= ONE,
    ensures
        0 <= times(x, x) <= times(y, y) <= ONE,
{
    assert(0 <= x * x <= y * y <= ONE * ONE) by (nonlinear_arith)
        requires
            0 <= x <= y <= ONE,
    ;
    lemma_div_monotone(0, x * x, ONE as int);
    lemma_div_monotone(x * x, y * y, ONE as int);
    lemma_div_monotone(y * y, ONE * ONE, ONE as int);
    assert(ONE * ONE / (ONE as int) == ONE);
}

proof fn lemma_root(x: int, y: int)
    requires
        0 <= x <= y,
    ensures
        0 <= ONE * ONE / exp_of(y) <= ONE * ONE / exp_of(x) <= ONE,
        x == 0 ==> ONE * ONE / exp_of(x) == ONE,
{
    lemma_exp_monotone(x, y);
    lemma_exp_zero();
    let c = ONE * ONE as int;
    let p = exp_of(x);
    let r = exp_of(y);
    assert(0 <= c / r <= c / p) by (nonlinear_arith)
        requires
            c >= 0,
            1 <= p <= r,
    ;
    assert(c / p <= c / (ONE as int)) by (nonlinear_arith)
        requires
            c >= 0,
            ONE <= p,
    ;
    assert(c / (ONE as int) == ONE);
}

/// `exp(-x)` falls as `x` grows, and lies between zero and one.
pub proof fn lemma_decay_antitone(x: int, y: int)
    requires
        0 <= x <= y,
    ensures
        0 <= decay(y) <= decay(x) <= ONE,
{
    assert(0 <= x / 16 <= y / 16);
    lemma_root(x / 16, y / 16);
    let rx = ONE * ONE / exp_of(x / 16);
    let ry = ONE * ONE / exp_of(y / 16);
    lemma_times(ry, rx);
    let (x2, y2) = (times(rx, rx), times(ry, ry));
    lemma_times(y2, x2);
    let (x4, y4) = (times(x2, x2), times(y2, y2));
    lemma_times(y4, x4);
    let (x8, y8) = (times(x4, x4), times(y4, y4));
    lemma_times(y8, x8);
}

/// `exp(-0)` is one.
pub proof fn lemma_decay_zero()
    ensures
        decay(0) == ONE,
{
    lemma_root(0, 0);
    assert(times(ONE as int, ONE as int) == ONE);
}

/// There is one logarithm.
proof fn lemma_log_unique(y: int, s: int)
    requires
        is_log(y, s),
    ensures
        log_of(s) == y,
{
    let z = log_of(s);
    assert(is_log(z, s));
    if z < y {
        lemma_exp_monotone(z + 1, y);
    }
    if y < z {
        lemma_exp_monotone(y + 1, z);
    }
}

/// The logarithm exists for sums between one and eight, grows with the sum,
/// and is under three.
pub proof fn lemma_log_bounds(s: int)
    requires
        ONE <= s <= 8 * ONE,
    ensures
        is_log(log_of(s), s),
        0 <= log_of(s) < 3 * ONE,
{
    lemma_exp_zero();
    lemma_exp_three();
    let y = lemma_log_exists(s, 0, 3 * ONE as int);
    lemma_log_unique(y, s);
}

proof fn lemma_log_exists(s: int, lo: int, hi: int) -> (y: int)
    requires
        0 <= lo < hi,
        exp_of(lo) <= s < exp_of(hi),
    ensures
        is_log(y, s),
        lo <= y < hi,
    decreases hi - lo,
{
    if hi == lo + 1 {
        lo
    } else if exp_of(hi - 1) <= s {
        hi - 1
    } else {
        lemma_log_exists(s, lo, hi - 1)
    }
}

/// The largest quantity is one of them, and none is larger.
pub proof fn lemma_peak(q: Seq<i128>)
    requires
        q.len() >= 1,
    ensures
        forall|i: int| 0 <= i < q.len() ==> #[trigger] q[i] <= peak(q),
        exists|i: int| 0 <= i < q.len() && #[trigger] q[i] == peak(q),
    decreases q.len(),
{
    if q.len() == 1 {
        assert(q[0] == peak(q));
    } else {
        let r = q.drop_last();
        lemma_peak(r);
        let k = choose|k: int| 0 <= k < r.len() && #[trigger] r[k] == peak(r);
        assert(q[k] == r[k]);
        assert(q[q.len() - 1] == q.last());
        assert forall|i: int| 0 <= i < q.len() implies #[trigger] q[i] <= peak(q) by {
            if i < r.len() {
                assert(q[i] == r[i]);
            }
        }
    }
}

/// An outcome's weight lies between zero and one, and a smaller gap weighs no
/// less.
pub proof fn lemma_weight(gap: int, wider: int, b: int)
    requires
        0 <= gap <= wider,
        b > 0,
    ensures
        0 <= weight(wider, b) <= weight(gap, b) <= ONE,
        weight(0, b) == ONE,
{
    lemma_decay_zero();
    assert(0int * ONE / b == 0) by (nonlinear_arith)
        requires
            b > 0,
    ;
    assert(CUTOFF * b > 0) by (nonlinear_arith)
        requires
            b > 0,
            CUTOFF > 0,
    ;
    lemma_div_monotone(0, gap * ONE, b);
    lemma_div_monotone(gap * ONE, wider * ONE, b);
    assert(0int / b == 0) by (nonlinear_arith)
        requires
            b > 0,
    ;
    lemma_decay_antitone(gap * ONE / b, wider * ONE / b);
}

/// The weights add up to between one and one per outcome, and no weight
/// exceeds the sum.
pub proof fn lemma_weights(q: Seq<i128>, b: int)
    requires
        quantities(q),
        b > 0,
    ensures
        ONE <= weights(q, peak(q), b, q.len()) <= q.len() * ONE,
        forall|i: int|
            0 <= i < q.len() ==> 0 <= weight(peak(q) - (#[trigger] q[i]), b) <= weights(
                q,
                peak(q),
                b,
                q.len(),
            ),
{
    lemma_peak(q);
    let top = choose|i: int| 0 <= i < q.len() && #[trigger] q[i] == peak(q);
    lemma_weights_prefix(q, peak(q), b, q.len(), top);
    lemma_weight(0, 0, b);
    assert forall|i: int| 0 <= i < q.len() implies 0 <= weight(peak(q) - (#[trigger] q[i]), b)
        <= weights(q, peak(q), b, q.len()) by {
        lemma_weights_prefix(q, peak(q), b, q.len(), i);
        lemma_weight(peak(q) - q[i], peak(q) - q[i], b);
    }
}

proof fn lemma_weights_prefix(q: Seq<i128>, top: int, b: int, n: nat, i: int)
    requires
        n <= q.len(),
        b > 0,
        forall|j: int| 0 <= j < q.len() ==> #[trigger] q[j] <= top,
    ensures
        0 <= weights(q, top, b, n) <= n * ONE,
        0 <= i < n ==> weight(top - q[i], b) <= weights(q, top, b, n),
    decreases n,
{
    if n > 0 {
        lemma_weights_prefix(q, top, b, (n - 1) as nat, i);
        lemma_weight(top - q[n - 1], top - q[n - 1], b);
    }
}

/// `exp(x)` in fixed point.
fn exp(x: i128) -> (res: i128)
    requires
        0 <= x <= 3 * ONE,
    ensures
        res == exp_of(x as int),
        ONE <= res <= 41 * (5 * ONE),
{
    let mut sum: i128 = ONE;
    let mut t: i128 = ONE;
    let mut k: i128 = 0;
    proof {
        lemma_series_bounds(x as int, TERMS as nat);
    }
    while k < TERMS && t != 0
        invariant
            0 <= x <= 3 * ONE,
            0 <= k <= TERMS,
            t == term(x as int, k as nat),
            sum == series(x as int, k as nat),
        decreases TERMS - k,
    {
        proof {
            lemma_term_bounds(x as int, k as nat);
            lemma_term_bounds(x as int, (k + 1) as nat);
            lemma_series_bounds(x as int, k as nat);
            lemma_series_bounds(x as int, (k + 1) as nat);
            assert(0 <= t * x <= 15 * ONE * ONE) by (nonlinear_arith)
                requires
                    0 <= t <= 5 * ONE,
                    0 <= x <= 3 * ONE,
            ;
        }
        k = k + 1;
        t = t * x / (k * ONE);
        sum = sum + t;
    }
    proof {
        if t == 0 {
            lemma_term_stays_zero(x as int, k as nat, TERMS as nat);
        }
    }
    sum
}

/// The square of a number between zero and one.
fn square(x: i128) -> (res: i128)
    requires
        0 <= x <= ONE,
    ensures
        res == times(x as int, x as int),
        0 <= res <= ONE,
{
    proof {
        lemma_times(x as int, x as int);
        assert(x * x <= ONE * ONE) by (nonlinear_arith)
            requires
                0 <= x <= ONE,
        ;
    }
    x * x / ONE
}

/// `exp(-x)` in fixed point.
fn exp_neg(x: i128) -> (res: i128)
    requires
        0 <= x <= CUTOFF * ONE,
    ensures
        res == decay(x as int),
        0 <= res <= ONE,
{
    proof {
        lemma_root(x as int / 16, x as int / 16);
    }
    let root: i128 = ONE * ONE / exp(x / 16);
    square(square(square(square(root))))
}

/// `ln(s)` in fixed point, by bisection.
fn ln(s: i128) -> (res: i128)
    requires
        ONE <= s <= 8 * ONE,
    ensures
        res == log_of(s as int),
        0 <= res < 3 * ONE,
{
    let mut lo: i128 = 0;
    let mut hi: i128 = 3 * ONE;
    proof {
        lemma_exp_zero();
        lemma_exp_three();
    }
    while hi - lo > 1
        invariant
            0 <= lo < hi <= 3 * ONE,
            exp_of(lo as int) <= s < exp_of(hi as int),
        decreases hi - lo,
    {
        let mid: i128 = lo + (hi - lo) / 2;
        if exp(mid) <= s {
            lo = mid;
        } else {
            hi = mid;
        }
    }
    proof {
        lemma_log_unique(lo as int, s as int);
    }
    lo
}

/// The largest quantity.
fn max_of(q: &Vec<i128>) -> (res: i128)
    requires
        q@.len() >= 1,
    ensures
        res == peak(q@),
{
    let mut best: i128 = q[0];
    let mut i: usize = 1;
    assert(q@.take(1)[0] == q@[0]);
    while i < q.len()
        invariant
            1 <= i <= q@.len(),
            best == peak(q@.take(i as int)),
        decreases q@.len() - i,
    {
        proof {
            let t = q@.take(i + 1);
            assert(t.drop_last() =~= q@.take(i as int));
            assert(t.last() == q@[i as int]);
        }
        if q[i] > best {
            best = q[i];
        }
        i = i + 1;
    }
    assert(q@.take(q@.len() as int) =~= q@);
    best
}

/// Weight of an outcome that lies `gap` under the largest quantity.
fn weigh(gap: i128, b: i128) -> (res: Result<i128, Error>)
    requires
        gap >= 0,
        b > 0,
    ensures
        match res {
            Ok(w) => (gap >= CUTOFF * b || fits(gap * ONE)) && w == weight(gap as int, b as int)
                && 0 <= w <= ONE,
            Err(e) => e == Error::Overflow && gap < CUTOFF * b && !fits(gap * ONE),
        },
{
    if gap / CUTOFF >= b {
        assert(gap >= CUTOFF * b);
        return Ok(0);
    }
    assert(gap < CUTOFF * b);
    match cmul(gap, ONE) {
        Err(e) => Err(e),
        Ok(scaled) => {
            proof {
                lemma_div_monotone(0, scaled as int, b as int);
                assert(0int / (b as int) == 0) by (nonlinear_arith)
                    requires
                        b > 0,
                ;
                assert(scaled as int / (b as int) <= CUTOFF * ONE) by (nonlinear_arith)
                    requires
                        scaled == gap * ONE,
                        gap < CUTOFF * b,
                        b > 0,
                ;
            }
            Ok(exp_neg(scaled / b))
        },
    }
}

/// Sum of the weights of all outcomes.
fn weigh_all(q: &Vec<i128>, top: i128, b: i128) -> (res: Result<i128, Error>)
    requires
        quantities(q@),
        top == peak(q@),
        b > 0,
    ensures
        match res {
            Ok(s) => scalable(q@, b as int) && s == weights(q@, top as int, b as int, q@.len())
                && ONE <= s <= 8 * ONE,
            Err(e) => e == Error::Overflow && !scalable(q@, b as int),
        },
{
    proof {
        lemma_peak(q@);
        lemma_weights(q@, b as int);
    }
    let mut sum: i128 = 0;
    let mut i: usize = 0;
    while i < q.len()
        invariant
            quantities(q@),
            top == peak(q@),
            b > 0,
            i <= q@.len(),
            0 <= sum <= i * ONE,
            sum == weights(q@, top as int, b as int, i as nat),
            forall|j: int| 0 <= j < q@.len() ==> #[trigger] q@[j] <= top,
            forall|j: int|
                0 <= j < i ==> top - (#[trigger] q@[j]) >= CUTOFF * b || fits(
                    (top - q@[j]) * ONE,
                ),
        decreases q@.len() - i,
    {
        assert(0 <= q@[i as int] <= top);
        match weigh(top - q[i], b) {
            Err(e) => {
                return Err(e);
            },
            Ok(w) => {
                sum = sum + w;
            },
        }
        i = i + 1;
    }
    Ok(sum)
}

/// Cost of a market with these quantities and liquidity parameter `b`.
pub fn lmsr_cost(q: &Vec<i128>, b: i128) -> (res: Result<i128, Error>)
    requires
        quantities(q@),
        b > 0,
    ensures
        res == cost_result(q@, b as int),
{
    let top: i128 = max_of(q);
    let sum: i128 = match weigh_all(q, top, b) {
        Err(e) => {
            return Err(e);
        },
        Ok(s) => s,
    };
    let log: i128 = ln(sum);
    match cmul(b, log) {
        Err(e) => Err(e),
        Ok(product) => {
            assert(product >= 0) by (nonlinear_arith)
                requires
                    product == b * log,
                    b > 0,
                    log >= 0,
            ;
            cadd(top, product / ONE)
        },
    }
}

/// Price of an outcome in units of [`SCALE`].
pub fn lmsr_price(q: &Vec<i128>, b: i128, index: u32) -> (res: Result<i128, Error>)
    requires
        quantities(q@),
        b > 0,
    ensures
        match res {
            Ok(p) => index < q@.len() && scalable(q@, b as int) && p == price(
                q@,
                b as int,
                index as int,
            ),
            Err(Error::InvalidOption) => index >= q@.len(),
            Err(e) => e == Error::Overflow && index < q@.len() && !scalable(q@, b as int),
        },
{
    if index as usize >= q.len() {
        return Err(Error::InvalidOption);
    }
    let top: i128 = max_of(q);
    let sum: i128 = match weigh_all(q, top, b) {
        Err(e) => {
            return Err(e);
        },
        Ok(s) => s,
    };
    proof {
        lemma_peak(q@);
        assert(0 <= q@[index as int] <= top);
    }
    match weigh(top - q[index as usize], b) {
        Err(e) => Err(e),
        Ok(w) => Ok(w * SCALE / sum),
    }
}

} // verus!
