//! When bets, exits and liquidity are taken, and what they change.
use vstd::prelude::*;

use crate::betting::{
    bet_effects, contributed, exit_error, exit_fee, lemma_with_bet, liquidity_error, lp_reward,
    place_error, purchase_cost, reward_error, sale_value, with_bet, with_exit, with_liquidity,
    with_reward,
};
use crate::checked_math::fits;
use crate::fee_laws::lemma_scaled_rounds_down;
use crate::fees::fee_split;
use crate::holdings::{lemma_total_nonnegative, total};
use crate::lmsr::{
    cost, cost_result, lemma_log_bounds, lemma_peak, lemma_weights, log_of, peak, quantities,
    scalable, weights, ONE,
};
use crate::state::{backed, ContractState, MarketState};
use crate::types::{Address, Error, Event, MarketStatus, Party};
use crate::vault::refund_error;

verus! {

/// The largest liquidity parameter and quantity for which no intermediate value
/// of the scoring rule is too large: ten to the power of 25.
pub open spec fn ordinary() -> int {
    10_000_000_000_000_000_000_000_000
}

/// The costs of ordinary markets can be computed.
pub proof fn lemma_ordinary_costs_fit(q: Seq<i128>, b: int)
    requires
        quantities(q),
        0 < b <= ordinary(),
        forall|i: int| 0 <= i < q.len() ==> #[trigger] q[i] <= ordinary(),
    ensures
        cost_result(q, b) matches Ok(c) && c == cost(q, b),
        scalable(q, b),
{
    lemma_peak(q);
    lemma_weights(q, b);
    let one = ONE as int;
    let top = peak(q);
    let k = choose|k: int| 0 <= k < q.len() && #[trigger] q[k] == top;
    assert(0 <= top <= ordinary());
    assert forall|i: int| 0 <= i < q.len() implies top - (#[trigger] q[i]) >= 28 * b || fits(
        (top - q[i]) * ONE,
    ) by {
        let gap = top - q[i];
        assert(0 <= gap * one <= 10_000_000_000_000_000_000_000_000_000_000_000_000)
            by (nonlinear_arith)
            requires
                0 <= gap <= 10_000_000_000_000_000_000_000_000,
                one == 1_000_000_000_000,
        ;
    }
    assert(q.len() * ONE <= 8 * ONE) by (nonlinear_arith)
        requires
            q.len() <= 8,
            ONE > 0,
    ;
    let sum = weights(q, top, b, q.len());
    lemma_log_bounds(sum);
    let l = log_of(sum);
    assert(0 <= b * l <= 30_000_000_000_000_000_000_000_000_000_000_000_000 && 0 <= b * l / one
        <= 3 * b) by (nonlinear_arith)
        requires
            0 < b <= 10_000_000_000_000_000_000_000_000,
            0 <= l < 3 * one,
            one == 1_000_000_000_000,
    ;
}

/// A bet is taken if and only if it is positive and within the limits, the market
/// is there, open, not paused and not past its deadline, the outcome is one of
/// its options, its token is allowed, and the charge is positive and fits.
pub proof fn lemma_bet_is_taken(
    s: ContractState,
    now: u64,
    id: u64,
    outcome: u32,
    bettor: Address,
    shares: i128,
)
    ensures
        ({
            let m = s.markets[id];
            let token = m.market.token;
            let error = place_error(s, now, id, outcome, bettor, shares);
            let before: int = if m.user_cost.contains_key(bettor) {
                m.user_cost[bettor] as int
            } else {
                0
            };
            &&& error is None <==> {
                &&& shares > 0
                &&& s.config.min_bet <= shares <= s.config.max_bet
                &&& !(s.paused.contains_key(id) && s.paused[id])
                &&& s.markets.contains_key(id)
                &&& m.market.status == MarketStatus::Active
                &&& now <= m.market.deadline
                &&& outcome < m.market.options.len()
                &&& s.whitelist.contains_key(token) && s.whitelist[token]
                &&& purchase_cost(m.outcome_shares, m.lmsr_b, outcome, shares) matches Ok(charge)
                &&& i128::MIN <= before + charge <= i128::MAX
                &&& i128::MIN <= m.total_shares + charge <= i128::MAX
            }
            &&& error == Some(Error::AmountNotPositive) ==> shares <= 0
            &&& error == Some(Error::BetBelowMinimum) ==> shares < s.config.min_bet
            &&& error == Some(Error::BetExceedsCap) ==> shares > s.config.max_bet
            &&& error == Some(Error::MarketPaused) ==> s.paused.contains_key(id) && s.paused[id]
            &&& error == Some(Error::MarketNotFound) ==> !s.markets.contains_key(id)
            &&& error == Some(Error::MarketNotActive) ==> m.market.status != MarketStatus::Active
            &&& error == Some(Error::DeadlinePassed) ==> now > m.market.deadline
            &&& error == Some(Error::InvalidOption) ==> outcome >= m.market.options.len()
            &&& error == Some(Error::TokenNotWhitelisted) ==> !(s.whitelist.contains_key(token)
                && s.whitelist[token])
        }),
{
}

/// A bet is charged to the bettor in the market's token, added to what the bettor
/// and everybody together paid in, and gives the bettor the shares; nothing else
/// changes.
pub proof fn lemma_bet_changes(
    m: MarketState,
    outcome: u32,
    bettor: Address,
    shares: i128,
    charge: i128,
)
    requires
        m.wf(),
        outcome < m.market.options.len(),
        shares > 0,
        fits(m.outcome_shares[outcome as int] + shares),
        fits(m.total_shares + charge),
        fits(
            charge + if m.user_cost.contains_key(bettor) {
                m.user_cost[bettor] as int
            } else {
                0
            },
        ),
    ensures
        ({
            let o = outcome as int;
            let after = with_bet(m, outcome, bettor, shares, charge);
            let effects = bet_effects(m, outcome, bettor, shares, charge);
            let held = m.positions[o];
            &&& after.total_shares == m.total_shares + charge
            &&& after.outcome_shares.len() == m.outcome_shares.len()
            &&& after.outcome_shares[o] == m.outcome_shares[o] + shares
            &&& forall|j: int|
                0 <= j < m.outcome_shares.len() && j != o ==> #[trigger] after.outcome_shares[j]
                    == m.outcome_shares[j] && after.positions[j] == m.positions[j]
            &&& after.pool_balances == m.pool_balances.insert(outcome, after.outcome_shares[o])
            &&& after.positions[o].contains_key(bettor)
            &&& after.positions[o][bettor] == shares + if held.contains_key(bettor) {
                held[bettor] as int
            } else {
                0
            }
            &&& after.positions[o].remove(bettor) == held.remove(bettor)
            &&& after.user_cost.contains_key(bettor)
            &&& after.user_cost[bettor] == charge + if m.user_cost.contains_key(bettor) {
                m.user_cost[bettor] as int
            } else {
                0
            }
            &&& after.user_cost.remove(bettor) == m.user_cost.remove(bettor)
            &&& after == (MarketState {
                total_shares: after.total_shares,
                outcome_shares: after.outcome_shares,
                pool_balances: after.pool_balances,
                positions: after.positions,
                user_cost: after.user_cost,
                ..m
            })
            &&& effects.transfers.len() == 1
            &&& effects.transfers[0].token == m.market.token
            &&& effects.transfers[0].from == Party::Account(bettor)
            &&& effects.transfers[0].to == Party::Contract
            &&& effects.transfers[0].amount == charge
            &&& effects.events.len() == 1
            &&& effects.events[0] == (Event::BetPlaced {
                market_id: m.market.id,
                bettor,
                option_index: outcome,
                cost: charge,
                shares,
            })
        }),
{
    let o = outcome as int;
    let after = with_bet(m, outcome, bettor, shares, charge);
    lemma_with_bet(m, outcome, bettor, shares, charge);
    assert(backed(m.positions[o], m.outcome_shares[o]));
    lemma_total_nonnegative(m.positions[o]);
    assert(after.positions[o].remove(bettor) =~= m.positions[o].remove(bettor));
    assert(after.user_cost.remove(bettor) =~= m.user_cost.remove(bettor));
}

/// An exit is taken if and only if it is positive, the market is there and open,
/// the outcome is one of its options, the bettor holds the shares, they are worth
/// something, and the fee can be shared out.
pub proof fn lemma_exit_is_taken(
    s: ContractState,
    id: u64,
    outcome: u32,
    bettor: Address,
    shares: i128,
)
    requires
        s.wf(),
    ensures
        ({
            let m = s.markets[id];
            let held = m.positions[outcome as int];
            let error = exit_error(s, id, outcome, bettor, shares);
            &&& error is None <==> {
                &&& shares > 0
                &&& s.markets.contains_key(id)
                &&& m.market.status == MarketStatus::Active
                &&& outcome < m.market.options.len()
                &&& held.contains_key(bettor) && held[bettor] >= shares
                &&& sale_value(m.outcome_shares, m.lmsr_b, outcome, shares) matches Ok(value)
                &&& exit_fee(value) matches Ok(fee)
                &&& i128::MIN <= m.total_shares - value <= i128::MAX
                &&& fee_split(s.config, fee, m.market.token) is Ok
            }
            &&& error == Some(Error::AmountNotPositive) ==> shares <= 0
            &&& error == Some(Error::MarketNotActive) ==> m.market.status != MarketStatus::Active
            &&& error == Some(Error::InvalidOption) ==> outcome >= m.market.options.len()
        }),
{
    if s.markets.contains_key(id) {
        assert(s.markets[id].wf());
    }
}

/// An exit takes the shares from the bettor and out of the market, and what they
/// are worth out of what was paid in; nothing else changes.
pub proof fn lemma_exit_changes(
    m: MarketState,
    outcome: u32,
    bettor: Address,
    shares: i128,
    value: i128,
)
    requires
        m.wf(),
        outcome < m.market.options.len(),
        shares > 0,
        m.positions[outcome as int].contains_key(bettor),
        m.positions[outcome as int][bettor] >= shares,
        fits(m.total_shares - value),
    ensures
        ({
            let o = outcome as int;
            let after = with_exit(m, outcome, bettor, shares, value);
            let held = m.positions[o];
            let left = after.positions[o];
            &&& after.total_shares == m.total_shares - value
            &&& after.outcome_shares.len() == m.outcome_shares.len()
            &&& after.outcome_shares[o] == m.outcome_shares[o] - shares
            &&& forall|j: int|
                0 <= j < m.outcome_shares.len() && j != o ==> #[trigger] after.outcome_shares[j]
                    == m.outcome_shares[j] && after.positions[j] == m.positions[j]
            &&& after.pool_balances == m.pool_balances.insert(outcome, after.outcome_shares[o])
            &&& held[bettor] == shares ==> !left.contains_key(bettor)
            &&& held[bettor] > shares ==> left.contains_key(bettor) && left[bettor] == held[bettor]
                - shares
            &&& left.remove(bettor) == held.remove(bettor)
            &&& after == (MarketState {
                total_shares: after.total_shares,
                outcome_shares: after.outcome_shares,
                pool_balances: after.pool_balances,
                positions: after.positions,
                ..m
            })
        }),
{
    let o = outcome as int;
    let after = with_exit(m, outcome, bettor, shares, value);
    assert(backed(m.positions[o], m.outcome_shares[o]));
    lemma_total_nonnegative(m.positions[o]);
    assert(after.positions[o].remove(bettor) =~= m.positions[o].remove(bettor));
}

/// Liquidity is taken if and only if it is positive, the market is there and
/// open, and the sums fit. It is added to what the provider contributed, to what
/// the provider paid in and to what everybody paid in; nothing else changes.
pub proof fn lemma_liquidity_is_taken(s: ContractState, id: u64, provider: Address, paid: i128)
    ensures
        ({
            let m = s.markets[id];
            let after = with_liquidity(m, provider, paid);
            let given: int = if m.lp is Some && m.lp->0.contains_key(provider) {
                m.lp->0[provider] as int
            } else {
                0
            };
            let cost: int = if m.user_cost.contains_key(provider) {
                m.user_cost[provider] as int
            } else {
                0
            };
            let error = liquidity_error(s, id, provider, paid);
            &&& error is None <==> {
                &&& paid > 0
                &&& s.markets.contains_key(id)
                &&& m.market.status == MarketStatus::Active
                &&& fits(given + paid)
                &&& fits(cost + paid)
                &&& fits(m.total_shares + paid)
            }
            &&& error is None ==> {
                &&& after.total_shares == m.total_shares + paid
                &&& after.lp matches Some(lp)
                &&& lp.contains_key(provider) && lp[provider] == given + paid
                &&& m.lp is Some ==> lp.remove(provider) == m.lp->0.remove(provider)
                &&& m.lp is None ==> lp.remove(provider) == Map::<Address, i128>::empty()
                &&& after.user_cost.contains_key(provider) && after.user_cost[provider] == cost
                    + paid
                &&& after.user_cost.remove(provider) == m.user_cost.remove(provider)
                &&& after == (MarketState {
                    total_shares: after.total_shares,
                    lp: after.lp,
                    user_cost: after.user_cost,
                    ..m
                })
            }
        }),
{
    let m = s.markets[id];
    let after = with_liquidity(m, provider, paid);
    assert(after.lp->0.remove(provider) =~= contributed(m).remove(provider));
    assert(after.user_cost.remove(provider) =~= m.user_cost.remove(provider));
}

/// When a provider of liquidity is rewarded: once the market is resolved, where
/// there is a fee pool, the provider contributed, and its part is not nothing.
pub proof fn lemma_reward_is_given(s: ContractState, id: u64, provider: Address)
    ensures
        ({
            let m = s.markets[id];
            let error = reward_error(s, id, provider);
            &&& error is None ==> {
                &&& s.markets.contains_key(id)
                &&& m.market.status == MarketStatus::Resolved
                &&& m.lp_fee_pool matches Some(pool) && pool > 0
                &&& m.lp matches Some(lp) && lp.contains_key(provider) && lp[provider] > 0
            }
            &&& error == Some(Error::MarketNotResolved) ==> m.market.status
                != MarketStatus::Resolved
            &&& error == Some(Error::NoFeePool) ==> !(m.lp_fee_pool matches Some(pool) && pool > 0)
            &&& error == Some(Error::NoLpContribution) ==> !(m.lp matches Some(lp)
                && lp.contains_key(provider) && lp[provider] > 0)
        }),
{
}

/// A provider whose part of the fee pool is at least one unit is rewarded, and
/// nothing but the fee pool and the provider's contribution changes.
pub proof fn lemma_reward_is_owed(s: ContractState, id: u64, provider: Address)
    requires
        s.wf(),
        s.markets.contains_key(id),
        s.markets[id].market.status == MarketStatus::Resolved,
        s.markets[id].lp_fee_pool matches Some(pool) && pool > 0,
        s.markets[id].lp matches Some(lp) && lp.contains_key(provider) && lp[provider] > 0,
        total(s.markets[id].lp->0) <= i128::MAX,
        s.markets[id].lp->0[provider] * s.markets[id].lp_fee_pool->0 <= i128::MAX,
    ensures
        ({
            let m = s.markets[id];
            let after = with_reward(m, provider, lp_reward(m, provider)->Ok_0);
            &&& reward_error(s, id, provider) is None <==> m.lp->0[provider] * m.lp_fee_pool->0
                >= total(m.lp->0)
            &&& after == (MarketState { lp: after.lp, lp_fee_pool: after.lp_fee_pool, ..m })
        }),
{
    let m = s.markets[id];
    assert(m.wf());
    let given = m.lp->0;
    lemma_total_nonnegative(given);
    let (c, pool, all) = (given[provider] as int, m.lp_fee_pool->0 as int, total(given));
    assert(0 < c <= all);
    assert(c * pool >= 0) by (nonlinear_arith)
        requires
            c > 0,
            pool > 0,
    ;
    lemma_scaled_rounds_down(c, pool, all);
    let y = c * pool;
    let x = lp_reward(m, provider)->Ok_0 as int;
    assert(x > 0 <==> y >= all) by (nonlinear_arith)
        requires
            x * all <= y < (x + 1) * all,
            x >= 0,
            all > 0,
    ;
}

/// A refund is given if and only if the market was voided, the bettor was not
/// refunded before and has paid something in.
pub proof fn lemma_refund_is_given(s: ContractState, id: u64, bettor: Address)
    ensures
        ({
            let m = s.markets[id];
            let error = refund_error(s, id, bettor);
            &&& error is None <==> {
                &&& s.markets.contains_key(id)
                &&& m.market.status == MarketStatus::Voided
                &&& !(m.refund_claimed.contains_key(bettor) && m.refund_claimed[bettor])
                &&& m.user_cost.contains_key(bettor) && m.user_cost[bettor] > 0
            }
            &&& error == Some(Error::AlreadyRefunded) ==> m.refund_claimed.contains_key(bettor)
                && m.refund_claimed[bettor]
        }),
{
}

} // verus!
