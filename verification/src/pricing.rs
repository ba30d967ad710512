//! What holds of the prices and costs of the scoring rule.
use vstd::prelude::*;

use crate::betting::moved;
use crate::checked_math::fits;
use crate::lmsr::{
    cost, lemma_exp_monotone, lemma_log_bounds, lemma_peak, lemma_weight, lemma_weights, log_of,
    peak, price, quantities, weight, weights, ONE, SCALE,
};

verus! {

/// Sum of the prices of the first `n` outcomes.
pub open spec fn prices_total(q: Seq<i128>, b: int, n: nat) -> int
    decreases n,
{
    if n == 0 {
        0
    } else {
        prices_total(q, b, (n - 1) as nat) + price(q, b, n - 1)
    }
}

/// A price lies between zero and one.
pub proof fn lemma_price_range(q: Seq<i128>, b: int, i: int)
    requires
        quantities(q),
        b > 0,
        0 <= i < q.len(),
    ensures
        0 <= price(q, b, i) <= SCALE,
{
    lemma_weights(q, b);
    let w = weight(peak(q) - q[i], b);
    let sum = weights(q, peak(q), b, q.len());
    assert(0 <= w * SCALE / sum <= SCALE) by (nonlinear_arith)
        requires
            0 <= w <= sum,
            sum > 0,
            SCALE > 0,
    ;
}

/// The prices of all outcomes add up to one, less what rounding leaves, which
/// is under the smallest unit per outcome.
pub proof fn lemma_prices_sum(q: Seq<i128>, b: int)
    requires
        quantities(q),
        b > 0,
    ensures
        SCALE - q.len() < prices_total(q, b, q.len()) <= SCALE,
{
    lemma_weights(q, b);
    let n = q.len();
    let sum = weights(q, peak(q), b, n);
    let prices = prices_total(q, b, n);
    lemma_prices_prefix(q, b, n);
    assert(prices <= SCALE) by (nonlinear_arith)
        requires
            sum * prices <= sum * SCALE,
            sum > 0,
    ;
    assert(prices > SCALE - n) by (nonlinear_arith)
        requires
            sum * SCALE - n * (sum - 1) <= sum * prices,
            sum > 0,
            n > 0,
    ;
}

proof fn lemma_prices_prefix(q: Seq<i128>, b: int, n: nat)
    requires
        quantities(q),
        b > 0,
        n <= q.len(),
    ensures
        ({
            let sum = weights(q, peak(q), b, q.len());
            let part = weights(q, peak(q), b, n);
            part * SCALE - n * (sum - 1) <= sum * prices_total(q, b, n) <= part * SCALE
        }),
    decreases n,
{
    lemma_weights(q, b);
    let sum = weights(q, peak(q), b, q.len());
    if n > 0 {
        let before = (n - 1) as nat;
        lemma_prices_prefix(q, b, before);
        let w = weight(peak(q) - q[n - 1], b);
        let part = weights(q, peak(q), b, before);
        let total = prices_total(q, b, before);
        let p = price(q, b, n - 1);
        assert(w * SCALE - (sum - 1) <= sum * p <= w * SCALE) by (nonlinear_arith)
            requires
                p == w * SCALE / sum,
                sum > 0,
        ;
        assert((part + w) * SCALE == part * SCALE + w * SCALE) by (nonlinear_arith);
        assert(sum * (total + p) == sum * total + sum * p) by (nonlinear_arith);
        assert(n * (sum - 1) == before * (sum - 1) + (sum - 1)) by (nonlinear_arith)
            requires
                n == before + 1,
        ;
    } else {
        assert(sum * 0 == 0) by (nonlinear_arith);
        assert(0 * (sum - 1) == 0) by (nonlinear_arith);
    }
}

proof fn lemma_equal_weights(q: Seq<i128>, top: int, b: int, n: nat)
    requires
        n <= q.len(),
        b > 0,
        forall|i: int| 0 <= i < q.len() ==> #[trigger] q[i] == top,
    ensures
        weights(q, top, b, n) == n * ONE,
    decreases n,
{
    if n > 0 {
        lemma_equal_weights(q, top, b, (n - 1) as nat);
        lemma_weight(0, 0, b);
        assert(q[n - 1] == top);
    }
}

/// Outcomes with equally many shares, such as those of a new market, have the
/// same price: one divided by their number.
pub proof fn lemma_equal_prices(q: Seq<i128>, b: int, i: int)
    requires
        quantities(q),
        b > 0,
        0 <= i < q.len(),
        forall|j: int| 0 <= j < q.len() ==> #[trigger] q[j] == q[0],
    ensures
        price(q, b, i) == SCALE as int / (q.len() as int),
{
    lemma_peak(q);
    let top = choose|j: int| 0 <= j < q.len() && #[trigger] q[j] == peak(q);
    assert(q[top] == q[0]);
    assert forall|j: int| 0 <= j < q.len() implies #[trigger] q[j] == peak(q) by {
        assert(q[j] == q[0]);
    }
    lemma_equal_weights(q, peak(q), b, q.len());
    lemma_weight(0, 0, b);
    let n = q.len() as int;
    assert(q[i] == q[0]);
    assert(ONE * SCALE / (n * ONE) == SCALE as int / n) by (nonlinear_arith)
        requires
            n > 0,
            ONE > 0,
            SCALE > 0,
    ;
}

/// The outcome with more shares has the higher price.
pub proof fn lemma_price_order(q: Seq<i128>, b: int, i: int, j: int)
    requires
        quantities(q),
        b > 0,
        0 <= i < q.len(),
        0 <= j < q.len(),
        q[i] <= q[j],
    ensures
        price(q, b, i) <= price(q, b, j),
{
    lemma_weights(q, b);
    lemma_peak(q);
    lemma_weight(peak(q) - q[j], peak(q) - q[i], b);
    let low = weight(peak(q) - q[i], b);
    let high = weight(peak(q) - q[j], b);
    let sum = weights(q, peak(q), b, q.len());
    assert(low * SCALE / sum <= high * SCALE / sum) by (nonlinear_arith)
        requires
            low <= high,
            sum > 0,
            SCALE > 0,
    ;
}

/// The weights of all outcomes but one.
spec fn other_weights(q: Seq<i128>, top: int, b: int, n: nat, i: int) -> int {
    weights(q, top, b, n) - if i < n {
        weight(top - q[i], b)
    } else {
        0
    }
}

proof fn lemma_other_weights(
    q: Seq<i128>,
    r: Seq<i128>,
    top: int,
    higher: int,
    b: int,
    n: nat,
    i: int,
)
    requires
        b > 0,
        n <= q.len() == r.len(),
        0 <= i < q.len(),
        top <= higher,
        forall|j: int| 0 <= j < q.len() ==> #[trigger] q[j] <= top,
        forall|j: int| 0 <= j < q.len() && j != i ==> #[trigger] r[j] == q[j],
    ensures
        0 <= other_weights(r, higher, b, n, i) <= other_weights(q, top, b, n, i),
    decreases n,
{
    if n > 0 {
        lemma_other_weights(q, r, top, higher, b, (n - 1) as nat, i);
        if i != n - 1 {
            assert(r[n - 1] == q[n - 1]);
            assert(q[n - 1] <= top);
            lemma_weight(top - q[n - 1], higher - q[n - 1], b);
        }
    }
}

/// Buying shares of an outcome never lowers its price.
pub proof fn lemma_price_rises(q: Seq<i128>, b: int, outcome: u32, shares: i128)
    requires
        quantities(q),
        b > 0,
        outcome < q.len(),
        shares > 0,
        fits(q[outcome as int] + shares),
    ensures
        price(q, b, outcome as int) <= price(
            moved(q, outcome, shares as int),
            b,
            outcome as int,
        ),
{
    let i = outcome as int;
    let r = moved(q, outcome, shares as int);
    let (top, higher) = (peak(q), peak(r));
    lemma_peak(q);
    lemma_peak(r);
    assert(r[i] == q[i] + shares);
    assert forall|j: int| 0 <= j < r.len() implies #[trigger] r[j] >= 0 by {
        assert(q[j] >= 0);
    }
    assert(top <= higher) by {
        let k = choose|k: int| 0 <= k < q.len() && #[trigger] q[k] == top;
        assert(r[k] >= q[k]);
        assert(r[k] <= higher);
    }
    assert(higher == top || higher == r[i]) by {
        let k = choose|k: int| 0 <= k < r.len() && #[trigger] r[k] == higher;
        if k != i {
            assert(q[k] <= top);
        }
    }
    assert(higher - r[i] <= top - q[i]);
    assert(r[i] <= higher && q[i] <= top);
    lemma_weight(higher - r[i], top - q[i], b);
    lemma_other_weights(q, r, top, higher, b, q.len(), i);
    lemma_weights(q, b);
    lemma_weights(r, b);
    let before = weight(top - q[i], b);
    let after = weight(higher - r[i], b);
    let rest = other_weights(q, top, b, q.len(), i);
    let less = other_weights(r, higher, b, r.len(), i);
    lemma_share_rises(before, after, rest, less, SCALE as int);
}

proof fn lemma_share_rises(before: int, after: int, rest: int, less: int, scale: int)
    requires
        0 <= before <= after,
        0 <= less <= rest,
        before + rest > 0,
        after + less > 0,
        scale > 0,
    ensures
        before * scale / (before + rest) <= after * scale / (after + less),
{
    let old_sum = before + rest;
    let new_sum = after + less;
    let p = before * scale / old_sum;
    assert(p * old_sum <= before * scale && p >= 0) by (nonlinear_arith)
        requires
            p == before * scale / old_sum,
            old_sum > 0,
            before >= 0,
            scale > 0,
    ;
    assert(p <= scale) by (nonlinear_arith)
        requires
            p * old_sum <= before * scale,
            before <= old_sum,
            old_sum > 0,
            scale > 0,
    ;
    assert(p * new_sum <= after * scale) by (nonlinear_arith)
        requires
            p * (before + rest) <= before * scale,
            0 <= p <= scale,
            0 <= before <= after,
            0 <= less <= rest,
            new_sum == after + less,
    ;
    assert(p <= after * scale / new_sum) by (nonlinear_arith)
        requires
            p * new_sum <= after * scale,
            new_sum > 0,
    ;
}

/// The cost of a market is at least its largest quantity, and exceeds it by
/// less than three times the liquidity parameter.
pub proof fn lemma_cost_bounds(q: Seq<i128>, b: int)
    requires
        quantities(q),
        b > 0,
    ensures
        peak(q) <= cost(q, b) < peak(q) + 3 * b,
{
    lemma_weights(q, b);
    let sum = weights(q, peak(q), b, q.len());
    assert(q.len() * ONE <= 8 * ONE) by (nonlinear_arith)
        requires
            q.len() <= 8,
            ONE > 0,
    ;
    lemma_log_bounds(sum);
    let log = log_of(sum);
    assert(0 <= b * log / (ONE as int) < 3 * b) by (nonlinear_arith)
        requires
            0 <= log < 3 * ONE,
            b > 0,
            ONE > 0,
    ;
}

/// The logarithm grows with its argument.
pub proof fn lemma_log_monotone(s: int, t: int)
    requires
        ONE <= s <= t <= 8 * ONE,
    ensures
        log_of(s) <= log_of(t),
{
    lemma_log_bounds(s);
    lemma_log_bounds(t);
    if log_of(t) < log_of(s) {
        lemma_exp_monotone(log_of(t) + 1, log_of(s));
    }
}

/// Buying shares of an outcome that leads costs no more than one unit per
/// share, and so does buying shares of any outcome of a new market.
pub proof fn lemma_leader_cost(q: Seq<i128>, b: int, outcome: u32, shares: i128)
    requires
        quantities(q),
        b > 0,
        outcome < q.len(),
        q[outcome as int] == peak(q),
        shares > 0,
        fits(q[outcome as int] + shares),
    ensures
        cost(moved(q, outcome, shares as int), b) - cost(q, b) <= shares,
{
    let i = outcome as int;
    let r = moved(q, outcome, shares as int);
    lemma_peak(q);
    lemma_peak(r);
    assert forall|j: int| 0 <= j < r.len() implies #[trigger] r[j] >= 0 by {
        assert(q[j] >= 0);
    }
    assert(peak(r) == r[i]) by {
        let k = choose|k: int| 0 <= k < r.len() && #[trigger] r[k] == peak(r);
        assert(r[i] <= peak(r));
        if k != i {
            assert(q[k] <= peak(q));
        }
    }
    lemma_weights(q, b);
    lemma_weights(r, b);
    lemma_weight(0, 0, b);
    lemma_other_weights(q, r, peak(q), peak(r), b, q.len(), i);
    let before = weights(q, peak(q), b, q.len());
    let after = weights(r, peak(r), b, r.len());
    assert(after <= before);
    assert(q.len() * ONE <= 8 * ONE) by (nonlinear_arith)
        requires
            q.len() <= 8,
            ONE > 0,
    ;
    lemma_log_monotone(after, before);
    let (x, y) = (log_of(after), log_of(before));
    assert(b * x / (ONE as int) <= b * y / (ONE as int)) by (nonlinear_arith)
        requires
            x <= y,
            b > 0,
            ONE > 0,
    ;
}

/// Buying shares of an outcome that does not overtake the leader never lowers
/// the cost of the market.
pub proof fn lemma_trailing_cost(q: Seq<i128>, b: int, outcome: u32, shares: i128)
    requires
        quantities(q),
        b > 0,
        outcome < q.len(),
        shares > 0,
        q[outcome as int] + shares <= peak(q),
    ensures
        cost(q, b) <= cost(moved(q, outcome, shares as int), b),
{
    let i = outcome as int;
    let r = moved(q, outcome, shares as int);
    lemma_peak(q);
    lemma_peak(r);
    assert(r[i] == q[i] + shares);
    assert forall|j: int| 0 <= j < r.len() implies #[trigger] r[j] >= 0 by {
        assert(q[j] >= 0);
    }
    assert(peak(r) == peak(q)) by {
        let k = choose|k: int| 0 <= k < r.len() && #[trigger] r[k] == peak(r);
        let j = choose|j: int| 0 <= j < q.len() && #[trigger] q[j] == peak(q);
        assert(q[k] <= peak(q));
        assert(q[i] < peak(q));
        assert(r[j] == q[j]);
    }
    lemma_weights(q, b);
    lemma_weights(r, b);
    lemma_weight(peak(q) - r[i], peak(q) - q[i], b);
    lemma_other_weights(r, q, peak(q), peak(q), b, q.len(), i);
    let before = weights(q, peak(q), b, q.len());
    let after = weights(r, peak(r), b, r.len());
    assert(before <= after);
    assert(q.len() * ONE <= 8 * ONE) by (nonlinear_arith)
        requires
            q.len() <= 8,
            ONE > 0,
    ;
    lemma_log_monotone(before, after);
    let (x, y) = (log_of(before), log_of(after));
    assert(b * x / (ONE as int) <= b * y / (ONE as int)) by (nonlinear_arith)
        requires
            x <= y,
            b > 0,
            ONE > 0,
    ;
}

} // verus!
