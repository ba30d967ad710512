//! Trading: bets at the market maker's price, early exits, and liquidity.
use vstd::prelude::*;

use crate::access::shutdown_error;
use crate::checked_math::{cadd, cmuldiv, csub, fits, lemma_quotient_fits, scaled};
use crate::fees::fee_split;
use crate::holdings::{
    amount_of, count_of, flag_of, lemma_total_insert, lemma_total_nonnegative, lemma_total_remove,
    total, Balances,
};
use crate::lmsr::{cost_result, lmsr_cost, lmsr_price, price, scalable};
use crate::market::status_error;
use crate::state::{
    backed, contributions, ContractState, MarketRecord, MarketState, PredictionMarket,
};
use crate::types::{
    either, Address, Effects, EffectsView, Error, Event, MarketStatus, Transfer, BPS, EXIT_FEE_BPS,
};

verus! {

/// Quantities after the shares of one outcome have changed.
pub open spec fn moved(q: Seq<i128>, outcome: u32, change: int) -> Seq<i128> {
    q.update(outcome as int, (q[outcome as int] + change) as i128)
}

/// What it costs to buy shares of an outcome: the cost of the market after the
/// purchase less the cost before it.
pub open spec fn purchase_cost(q: Seq<i128>, b: i128, outcome: u32, shares: i128) -> Result<
    i128,
    Error,
> {
    let before = cost_result(q, b as int);
    let after = cost_result(moved(q, outcome, shares as int), b as int);
    if !fits(q[outcome as int] + shares) || before is Err || after is Err {
        Err(Error::Overflow)
    } else {
        let delta = after->Ok_0 - before->Ok_0;
        if !fits(delta) {
            Err(Error::Overflow)
        } else if delta <= 0 {
            Err(Error::CostNotPositive)
        } else {
            Ok(delta as i128)
        }
    }
}

/// Refusal of a bet for what is asked, before it is priced.
pub open spec fn bet_error(
    s: ContractState,
    now: u64,
    id: u64,
    outcome: u32,
    shares: i128,
) -> Option<Error> {
    let m = s.markets[id];
    if shares <= 0 {
        Some(Error::AmountNotPositive)
    } else if shares < s.config.min_bet {
        Some(Error::BetBelowMinimum)
    } else if shares > s.config.max_bet {
        Some(Error::BetExceedsCap)
    } else if s.is_paused(id) {
        Some(Error::MarketPaused)
    } else if status_error(s, id, MarketStatus::Active, Error::MarketNotActive) is Some {
        status_error(s, id, MarketStatus::Active, Error::MarketNotActive)
    } else if now > m.market.deadline {
        Some(Error::DeadlinePassed)
    } else if outcome >= m.outcomes() {
        Some(Error::InvalidOption)
    } else if !flag_of(s.whitelist, m.market.token) {
        Some(Error::TokenNotWhitelisted)
    } else {
        None
    }
}

/// Refusal of a bet for what it costs.
pub open spec fn charge_error(
    m: MarketState,
    outcome: u32,
    bettor: Address,
    shares: i128,
) -> Option<Error> {
    match purchase_cost(m.outcome_shares, m.lmsr_b, outcome, shares) {
        Err(e) => Some(e),
        Ok(cost) => if !fits(amount_of(m.user_cost, bettor) + cost) || !fits(
            m.total_shares + cost,
        ) {
            Some(Error::Overflow)
        } else {
            None
        },
    }
}

/// Refusal of a bet.
pub open spec fn place_error(
    s: ContractState,
    now: u64,
    id: u64,
    outcome: u32,
    bettor: Address,
    shares: i128,
) -> Option<Error> {
    either(
        bet_error(s, now, id, outcome, shares),
        charge_error(s.markets[id], outcome, bettor, shares),
    )
}

/// A market after a bet has been charged and recorded.
pub open spec fn with_bet(
    m: MarketState,
    outcome: u32,
    bettor: Address,
    shares: i128,
    cost: i128,
) -> MarketState {
    let q = moved(m.outcome_shares, outcome, shares as int);
    MarketState {
        total_shares: (m.total_shares + cost) as i128,
        outcome_shares: q,
        pool_balances: m.pool_balances.insert(outcome, q[outcome as int]),
        positions: m.positions.update(
            outcome as int,
            m.positions[outcome as int].insert(
                bettor,
                (m.position(outcome, bettor) + shares) as i128,
            ),
        ),
        user_cost: m.user_cost.insert(bettor, (amount_of(m.user_cost, bettor) + cost) as i128),
        ..m
    }
}

/// What a bet asks of the ledger.
pub open spec fn bet_effects(
    m: MarketState,
    outcome: u32,
    bettor: Address,
    shares: i128,
    cost: i128,
) -> EffectsView {
    EffectsView {
        transfers: seq![Transfer::collect(m.market.token, bettor, cost)],
        events: seq![
            Event::BetPlaced {
                market_id: m.market.id,
                bettor,
                option_index: outcome,
                cost,
                shares,
            },
        ],
    }
}

/// A bet keeps a market sound.
pub proof fn lemma_with_bet(
    m: MarketState,
    outcome: u32,
    bettor: Address,
    shares: i128,
    cost: i128,
)
    requires
        m.wf(),
        outcome < m.outcomes(),
        shares > 0,
        fits(m.outcome_shares[outcome as int] + shares),
    ensures
        m.position(outcome, bettor) + shares <= m.outcome_shares[outcome as int] + shares,
        with_bet(m, outcome, bettor, shares, cost).wf(),
{
    let o = outcome as int;
    let n = with_bet(m, outcome, bettor, shares, cost);
    let held = m.positions[o];
    assert(backed(held, m.outcome_shares[o]));
    lemma_total_nonnegative(held);
    lemma_total_insert(held, bettor, (m.position(outcome, bettor) + shares) as i128);
    assert forall|i: int| 0 <= i < n.outcomes() implies backed(
        #[trigger] n.positions[i],
        #[trigger] n.outcome_shares[i],
    ) by {
        assert(backed(m.positions[i], m.outcome_shares[i]));
    }
}

impl PredictionMarket {
    /// Place a bet on an option. Blocked when the platform is shut down.
    ///
    /// `amount` is the number of shares the bettor wants to buy; what is
    /// charged is the market maker's cost of them.
    pub fn place_bet(
        &mut self,
        now: u64,
        market_id: u64,
        option_index: u32,
        bettor: Address,
        amount: i128,
    ) -> (res: Result<Effects, Error>)
        requires
            old(self)@.wf(),
        ensures
            final(self)@.wf(),
            ({
                let s = old(self)@;
                let m = s.markets[market_id];
                let error = either(
                    shutdown_error(s),
                    place_error(s, now, market_id, option_index, bettor, amount),
                );
                match res {
                    Ok(effects) => {
                        let cost = purchase_cost(
                            m.outcome_shares,
                            m.lmsr_b,
                            option_index,
                            amount,
                        )->Ok_0;
                        &&& error is None
                        &&& final(self)@ == s.with_market(
                            market_id,
                            with_bet(m, option_index, bettor, amount, cost),
                        )
                        &&& effects@ == bet_effects(m, option_index, bettor, amount, cost)
                    },
                    Err(e) => error == Some(e) && final(self)@ == s,
                }
            }),
    {
        self.check_platform_active()?;
        self.internal_place_bet(now, market_id, option_index, bettor, amount)
    }

    /// Logic for placing a bet, shared by `place_bet` and `place_bet_with_sig`.
    pub fn internal_place_bet(
        &mut self,
        now: u64,
        market_id: u64,
        option_index: u32,
        bettor: Address,
        amount: i128,
    ) -> (res: Result<Effects, Error>)
        requires
            old(self)@.wf(),
        ensures
            final(self)@.wf(),
            ({
                let s = old(self)@;
                let m = s.markets[market_id];
                let error = place_error(s, now, market_id, option_index, bettor, amount);
                match res {
                    Ok(effects) => {
                        let cost = purchase_cost(
                            m.outcome_shares,
                            m.lmsr_b,
                            option_index,
                            amount,
                        )->Ok_0;
                        &&& error is None
                        &&& final(self)@ == s.with_market(
                            market_id,
                            with_bet(m, option_index, bettor, amount, cost),
                        )
                        &&& effects@ == bet_effects(m, option_index, bettor, amount, cost)
                    },
                    Err(e) => error == Some(e) && final(self)@ == s,
                }
            }),
    {
        if amount <= 0 {
            return Err(Error::AmountNotPositive);
        }
        if amount < self.config.min_bet {
            return Err(Error::BetBelowMinimum);
        }
        if amount > self.config.max_bet {
            return Err(Error::BetExceedsCap);
        }
        if self.paused.get(market_id) {
            return Err(Error::MarketPaused);
        }
        let record = self.check_status(market_id, MarketStatus::Active, Error::MarketNotActive)?;
        if now > record.market.deadline {
            return Err(Error::DeadlinePassed);
        }
        if option_index as usize >= record.market.options.len() {
            return Err(Error::InvalidOption);
        }
        let token = record.market.token;
        if !self.whitelist.get(token) {
            return Err(Error::TokenNotWhitelisted);
        }
        let ghost m = record@;
        let cost: i128 = record.purchase(option_index, amount)?;
        proof {
            lemma_with_bet(m, option_index, bettor, amount, cost);
        }
        let shares: i128 = match record.outcome_shares.get(option_index) {
            Some(q) => q + amount,
            None => 0,
        };
        let position: i128 = record.position(option_index, bettor) + amount;
        let user_cost: i128 = cadd(record.user_cost.get(bettor), cost)?;
        let total_shares: i128 = cadd(record.total_shares, cost)?;

        let mut record = self.take_market(market_id);
        record.outcome_shares.set(option_index, shares);
        record.pool_balances.set(option_index, shares);
        record.set_position(option_index, bettor, position);
        record.user_cost.set(bettor, user_cost);
        record.total_shares = total_shares;
        assert(record@ =~= with_bet(m, option_index, bettor, amount, cost));
        self.put_market(market_id, record);
        Ok(
            Effects::transfer_and_event(
                Transfer::collect(token, bettor, cost),
                Event::BetPlaced { market_id, bettor, option_index, cost, shares: amount },
            ),
        )
    }
}

impl MarketRecord {
    /// What it costs to buy shares of an outcome.
    pub fn purchase(&self, outcome: u32, shares: i128) -> (res: Result<i128, Error>)
        requires
            self@.wf(),
            outcome < self@.outcomes(),
            shares > 0,
        ensures
            res == purchase_cost(self@.outcome_shares, self@.lmsr_b, outcome, shares),
    {
        let before = self.outcome_shares.to_vec();
        let i: usize = outcome as usize;
        let mut after = self.outcome_shares.to_vec();
        let bought: i128 = cadd(after[i], shares)?;
        after.set(i, bought);
        assert(after@ =~= moved(self@.outcome_shares, outcome, shares as int));
        let cost_before: i128 = lmsr_cost(&before, self.lmsr_b)?;
        let cost_after: i128 = lmsr_cost(&after, self.lmsr_b)?;
        let delta: i128 = csub(cost_after, cost_before)?;
        if delta <= 0 {
            return Err(Error::CostNotPositive);
        }
        Ok(delta)
    }
}

impl PredictionMarket {
    /// Gasless bet placement using an off-chain signature and a manual nonce for
    /// replay protection.
    ///
    /// The nonce must match the stored nonce of the bettor, which is incremented
    /// by every successful bet. That the signature covers the arguments is for
    /// the host to establish.
    pub fn place_bet_with_sig(
        &mut self,
        now: u64,
        market_id: u64,
        option_index: u32,
        bettor: Address,
        amount: i128,
        nonce: u64,
    ) -> (res: Result<Effects, Error>)
        requires
            old(self)@.wf(),
        ensures
            final(self)@.wf(),
            ({
                let s = old(self)@;
                let m = s.markets[market_id];
                let error = either(
                    either(shutdown_error(s), nonce_error(s, bettor, nonce)),
                    place_error(s, now, market_id, option_index, bettor, amount),
                );
                match res {
                    Ok(effects) => {
                        let cost = purchase_cost(
                            m.outcome_shares,
                            m.lmsr_b,
                            option_index,
                            amount,
                        )->Ok_0;
                        &&& error is None
                        &&& final(self)@ == (ContractState {
                            nonces: s.nonces.insert(bettor, (nonce + 1) as u64),
                            ..s.with_market(
                                market_id,
                                with_bet(m, option_index, bettor, amount, cost),
                            )
                        })
                        &&& effects@ == bet_effects(m, option_index, bettor, amount, cost)
                    },
                    Err(e) => error == Some(e) && final(self)@ == s,
                }
            }),
    {
        self.check_platform_active()?;
        if nonce != self.nonces.get(bettor) {
            return Err(Error::InvalidNonce);
        }
        if nonce == u64::MAX {
            return Err(Error::Overflow);
        }
        let effects = self.internal_place_bet(now, market_id, option_index, bettor, amount)?;
        self.nonces.set(bettor, nonce + 1);
        Ok(effects)
    }
}

/// Refusal of a nonce.
pub open spec fn nonce_error(s: ContractState, bettor: Address, nonce: u64) -> Option<Error> {
    if nonce != count_of(s.nonces, bettor) {
        Some(Error::InvalidNonce)
    } else if nonce == u64::MAX {
        Some(Error::Overflow)
    } else {
        None
    }
}

/// What shares of an outcome are worth when they are given back: the cost of
/// the market before less the cost after.
pub open spec fn sale_value(q: Seq<i128>, b: i128, outcome: u32, shares: i128) -> Result<
    i128,
    Error,
> {
    let before = cost_result(q, b as int);
    let after = cost_result(moved(q, outcome, -shares), b as int);
    if q[outcome as int] < shares {
        Err(Error::InsufficientPosition)
    } else if before is Err || after is Err {
        Err(Error::Overflow)
    } else {
        let delta = before->Ok_0 - after->Ok_0;
        if !fits(delta) {
            Err(Error::Overflow)
        } else if delta <= 0 {
            Err(Error::PayoutNotPositive)
        } else {
            Ok(delta as i128)
        }
    }
}

/// The fee on leaving a position early.
pub open spec fn exit_fee(value: i128) -> Result<i128, Error> {
    scaled(value as int, EXIT_FEE_BPS as int, BPS as int)
}

/// Refusal of an exit for what is asked, before it is priced.
pub open spec fn exit_guard(s: ContractState, id: u64, outcome: u32, shares: i128) -> Option<
    Error,
> {
    if shares <= 0 {
        Some(Error::AmountNotPositive)
    } else if status_error(s, id, MarketStatus::Active, Error::MarketNotActive) is Some {
        status_error(s, id, MarketStatus::Active, Error::MarketNotActive)
    } else if outcome >= s.markets[id].outcomes() {
        Some(Error::InvalidOption)
    } else {
        None
    }
}

/// Refusal of an exit for what it is worth or because the shares are not the
/// bettor's.
pub open spec fn exit_pay_error(
    s: ContractState,
    id: u64,
    outcome: u32,
    bettor: Address,
    shares: i128,
) -> Option<Error> {
    let m = s.markets[id];
    match sale_value(m.outcome_shares, m.lmsr_b, outcome, shares) {
        Err(e) => Some(e),
        Ok(value) => match exit_fee(value) {
            Err(e) => Some(e),
            Ok(fee) => if m.position(outcome, bettor) < shares {
                Some(Error::InsufficientPosition)
            } else if !fits(m.total_shares - value) {
                Some(Error::Overflow)
            } else {
                fee_split(s.config, fee, m.market.token).err()
            },
        },
    }
}

/// Refusal of an exit.
pub open spec fn exit_error(
    s: ContractState,
    id: u64,
    outcome: u32,
    bettor: Address,
    shares: i128,
) -> Option<Error> {
    either(exit_guard(s, id, outcome, shares), exit_pay_error(s, id, outcome, bettor, shares))
}

/// Holdings from which an address gives some back.
pub open spec fn reduced(held: Map<Address, i128>, address: Address, shares: i128) -> Map<
    Address,
    i128,
> {
    if amount_of(held, address) == shares {
        held.remove(address)
    } else {
        held.insert(address, (amount_of(held, address) - shares) as i128)
    }
}

/// A market after shares have been given back.
pub open spec fn with_exit(
    m: MarketState,
    outcome: u32,
    bettor: Address,
    shares: i128,
    value: i128,
) -> MarketState {
    let q = moved(m.outcome_shares, outcome, -shares);
    MarketState {
        total_shares: (m.total_shares - value) as i128,
        outcome_shares: q,
        pool_balances: m.pool_balances.insert(outcome, q[outcome as int]),
        positions: m.positions.update(
            outcome as int,
            reduced(m.positions[outcome as int], bettor, shares),
        ),
        ..m
    }
}

/// An exit keeps a market sound.
pub proof fn lemma_with_exit(
    m: MarketState,
    outcome: u32,
    bettor: Address,
    shares: i128,
    value: i128,
)
    requires
        m.wf(),
        outcome < m.outcomes(),
        0 < shares <= m.position(outcome, bettor),
        shares <= m.outcome_shares[outcome as int],
    ensures
        with_exit(m, outcome, bettor, shares, value).wf(),
{
    let o = outcome as int;
    let n = with_exit(m, outcome, bettor, shares, value);
    let held = m.positions[o];
    assert(backed(held, m.outcome_shares[o]));
    lemma_total_remove(held, bettor);
    lemma_total_insert(held, bettor, (m.position(outcome, bettor) - shares) as i128);
    assert forall|i: int| 0 <= i < n.outcomes() implies backed(
        #[trigger] n.positions[i],
        #[trigger] n.outcome_shares[i],
    ) by {
        assert(backed(m.positions[i], m.outcome_shares[i]));
    }
}

/// The exit fee is part of what the shares are worth.
pub proof fn lemma_exit_fee(value: i128)
    requires
        value > 0,
        exit_fee(value) is Ok,
    ensures
        0 <= exit_fee(value)->Ok_0 < value,
{
    lemma_quotient_fits(value * EXIT_FEE_BPS, BPS as int);
}

impl MarketRecord {
    /// What shares of an outcome are worth when they are given back.
    pub fn sale(&self, outcome: u32, shares: i128) -> (res: Result<i128, Error>)
        requires
            self@.wf(),
            outcome < self@.outcomes(),
            shares > 0,
        ensures
            res == sale_value(self@.outcome_shares, self@.lmsr_b, outcome, shares),
    {
        let before = self.outcome_shares.to_vec();
        let i: usize = outcome as usize;
        let mut after = self.outcome_shares.to_vec();
        if after[i] < shares {
            return Err(Error::InsufficientPosition);
        }
        let left: i128 = after[i] - shares;
        after.set(i, left);
        assert(after@ =~= moved(self@.outcome_shares, outcome, -shares));
        let cost_before: i128 = lmsr_cost(&before, self.lmsr_b)?;
        let cost_after: i128 = lmsr_cost(&after, self.lmsr_b)?;
        let delta: i128 = csub(cost_before, cost_after)?;
        if delta <= 0 {
            return Err(Error::PayoutNotPositive);
        }
        Ok(delta)
    }
}

impl PredictionMarket {
    /// Give shares back to the market maker before the market closes.
    ///
    /// Pays what the shares are worth less an exit fee of 0.5%, which is split
    /// like any other fee. Returns what the bettor is paid.
    pub fn exit_position(
        &mut self,
        market_id: u64,
        option_index: u32,
        bettor: Address,
        amount: i128,
    ) -> (res: Result<(i128, Effects), Error>)
        requires
            old(self)@.wf(),
        ensures
            final(self)@.wf(),
            ({
                let s = old(self)@;
                let m = s.markets[market_id];
                let error = exit_error(s, market_id, option_index, bettor, amount);
                match res {
                    Ok((paid, effects)) => {
                        let value = sale_value(
                            m.outcome_shares,
                            m.lmsr_b,
                            option_index,
                            amount,
                        )->Ok_0;
                        let fee = exit_fee(value)->Ok_0;
                        let split = fee_split(s.config, fee, m.market.token)->Ok_0;
                        &&& error is None
                        &&& paid == value - fee
                        &&& final(self)@ == s.with_market(
                            market_id,
                            with_exit(m, option_index, bettor, amount, value),
                        )
                        &&& effects@ == (EffectsView {
                            transfers: seq![Transfer::pay(m.market.token, bettor, paid)]
                                + split.transfers,
                            events: split.events,
                        })
                    },
                    Err(e) => error == Some(e) && final(self)@ == s,
                }
            }),
    {
        if amount <= 0 {
            return Err(Error::AmountNotPositive);
        }
        let record = self.check_status(market_id, MarketStatus::Active, Error::MarketNotActive)?;
        if option_index as usize >= record.market.options.len() {
            return Err(Error::InvalidOption);
        }
        let ghost m = record@;
        let token = record.market.token;
        let value: i128 = record.sale(option_index, amount)?;
        let fee: i128 = cmuldiv(value, EXIT_FEE_BPS, BPS)?;
        proof {
            lemma_exit_fee(value);
        }
        let paid: i128 = value - fee;
        let held: i128 = record.position(option_index, bettor);
        if held < amount {
            return Err(Error::InsufficientPosition);
        }
        let shares: i128 = match record.outcome_shares.get(option_index) {
            Some(q) => q - amount,
            None => 0,
        };
        let total_shares: i128 = csub(record.total_shares, value)?;
        let split = self.distribute_fee_split(fee, token)?;
        let mut effects = Effects::transfer(Transfer::pay(token, bettor, paid));
        effects.append(split);

        proof {
            lemma_with_exit(m, option_index, bettor, amount, value);
        }
        let mut record = self.take_market(market_id);
        record.outcome_shares.set(option_index, shares);
        record.pool_balances.set(option_index, shares);
        if held == amount {
            record.remove_position(option_index, bettor);
        } else {
            record.set_position(option_index, bettor, held - amount);
        }
        record.total_shares = total_shares;
        assert(record@ =~= with_exit(m, option_index, bettor, amount, value));
        self.put_market(market_id, record);
        Ok((paid, effects))
    }
}

/// What has been contributed as liquidity.
pub open spec fn contributed(m: MarketState) -> Map<Address, i128> {
    match m.lp {
        Some(lp) => lp,
        None => Map::empty(),
    }
}

/// Refusal of liquidity.
pub open spec fn liquidity_error(
    s: ContractState,
    id: u64,
    provider: Address,
    paid: i128,
) -> Option<Error> {
    let m = s.markets[id];
    if paid <= 0 {
        Some(Error::AmountNotPositive)
    } else if status_error(s, id, MarketStatus::Active, Error::MarketNotActive) is Some {
        status_error(s, id, MarketStatus::Active, Error::MarketNotActive)
    } else if !fits(amount_of(contributed(m), provider) + paid) || !fits(
        amount_of(m.user_cost, provider) + paid,
    ) || !fits(m.total_shares + paid) {
        Some(Error::Overflow)
    } else {
        None
    }
}

/// A market after liquidity has been provided.
pub open spec fn with_liquidity(m: MarketState, provider: Address, paid: i128) -> MarketState {
    MarketState {
        total_shares: (m.total_shares + paid) as i128,
        lp: Some(
            contributed(m).insert(provider, (amount_of(contributed(m), provider) + paid) as i128),
        ),
        user_cost: m.user_cost.insert(provider, (amount_of(m.user_cost, provider) + paid) as i128),
        ..m
    }
}

/// The reward of a liquidity provider: the part of the fee pool that the
/// contribution is of all contributions, rounded down.
pub open spec fn lp_reward(m: MarketState, provider: Address) -> Result<i128, Error> {
    scaled(
        amount_of(contributed(m), provider) as int,
        m.lp_fee_pool->0 as int,
        total(contributed(m)),
    )
}

/// Refusal of a liquidity provider's claim.
pub open spec fn reward_error(s: ContractState, id: u64, provider: Address) -> Option<Error> {
    let m = s.markets[id];
    if status_error(s, id, MarketStatus::Resolved, Error::MarketNotResolved) is Some {
        status_error(s, id, MarketStatus::Resolved, Error::MarketNotResolved)
    } else if m.lp_fee_pool is None || m.lp_fee_pool->0 <= 0 {
        Some(Error::NoFeePool)
    } else if amount_of(contributed(m), provider) <= 0 {
        Some(Error::NoLpContribution)
    } else if !fits(total(contributed(m))) {
        Some(Error::Overflow)
    } else {
        match lp_reward(m, provider) {
            Err(e) => Some(e),
            Ok(reward) => if reward <= 0 {
                Some(Error::RewardRoundsToZero)
            } else {
                None
            },
        }
    }
}

/// A market after a liquidity provider has been rewarded.
pub open spec fn with_reward(m: MarketState, provider: Address, reward: i128) -> MarketState {
    MarketState {
        lp: Some(contributed(m).insert(provider, 0)),
        lp_fee_pool: Some((m.lp_fee_pool->0 - reward) as i128),
        ..m
    }
}

/// A reward is no more than the fee pool.
pub proof fn lemma_reward(m: MarketState, provider: Address)
    requires
        m.wf(),
        amount_of(contributed(m), provider) > 0,
        m.lp_fee_pool matches Some(pool) && pool > 0,
        lp_reward(m, provider) is Ok,
    ensures
        total(contributed(m)) > 0,
        0 <= lp_reward(m, provider)->Ok_0 <= m.lp_fee_pool->0,
{
    let lp = contributed(m);
    let share = amount_of(lp, provider) as int;
    let pool = m.lp_fee_pool->0 as int;
    let whole = total(lp);
    lemma_total_nonnegative(lp);
    assert(share <= whole);
    assert(share * pool >= 0 && share * pool <= whole * pool) by (nonlinear_arith)
        requires
            0 <= share <= whole,
            pool > 0,
    ;
    lemma_quotient_fits(share * pool, whole);
    assert((share * pool) / whole <= pool) by (nonlinear_arith)
        requires
            share * pool <= whole * pool,
            whole > 0,
    ;
}

impl PredictionMarket {
    /// Seed a market's liquidity pool. Collects `amount` from `provider` and
    /// records the contribution for proportional fee distribution.
    pub fn provide_liquidity(
        &mut self,
        env: &soroban_sdk::Env,
        market_id: u64,
        provider: Address,
        amount: i128,
    ) -> (res: Result<Effects, Error>)
        requires
            old(self)@.wf(),
        ensures
            final(self)@.wf(),
            ({
                let s = old(self)@;
                let m = s.markets[market_id];
                let error = liquidity_error(s, market_id, provider, amount);
                match res {
                    Ok(effects) => {
                        &&& error is None
                        &&& final(self)@ == s.with_market(
                            market_id,
                            with_liquidity(m, provider, amount),
                        )
                        &&& effects@ == (EffectsView {
                            transfers: seq![Transfer::collect(m.market.token, provider, amount)],
                            events: seq![Event::LiquidityProvided { market_id, provider, amount }],
                        })
                    },
                    Err(e) => error == Some(e) && final(self)@ == s,
                }
            }),
    {
        if amount <= 0 {
            return Err(Error::AmountNotPositive);
        }
        let record = self.check_status(market_id, MarketStatus::Active, Error::MarketNotActive)?;
        let ghost m = record@;
        let token = record.market.token;
        let existing: i128 = match &record.lp {
            Some(lp) => lp.get(provider),
            None => 0,
        };
        let contribution: i128 = cadd(existing, amount)?;
        let user_cost: i128 = cadd(record.user_cost.get(provider), amount)?;
        let total_shares: i128 = cadd(record.total_shares, amount)?;

        let mut record = self.take_market(market_id);
        let mut lp = match record.lp {
            Some(lp) => lp,
            None => Balances::new(env),
        };
        lp.set(provider, contribution);
        record.lp = Some(lp);
        record.user_cost.set(provider, user_cost);
        record.total_shares = total_shares;
        assert(record@ =~= with_liquidity(m, provider, amount));
        assert(contributions(record@.lp->0));
        self.put_market(market_id, record);
        Ok(
            Effects::transfer_and_event(
                Transfer::collect(token, provider, amount),
                Event::LiquidityProvided { market_id, provider, amount },
            ),
        )
    }

    /// Claim proportional share of the fee pool for a liquidity provider.
    /// Can only be called after the market is resolved. Returns the reward.
    pub fn claim_lp_reward(&mut self, market_id: u64, lp: Address) -> (res: Result<
        (i128, Effects),
        Error,
    >)
        requires
            old(self)@.wf(),
        ensures
            final(self)@.wf(),
            ({
                let s = old(self)@;
                let m = s.markets[market_id];
                let error = reward_error(s, market_id, lp);
                match res {
                    Ok((reward, effects)) => {
                        &&& error is None
                        &&& lp_reward(m, lp) == Ok::<i128, Error>(reward)
                        &&& final(self)@ == s.with_market(market_id, with_reward(m, lp, reward))
                        &&& effects@ == (EffectsView {
                            transfers: seq![Transfer::pay(m.market.token, lp, reward)],
                            events: seq![
                                Event::LpRewardClaimed { market_id, provider: lp, reward },
                            ],
                        })
                    },
                    Err(e) => error == Some(e) && final(self)@ == s,
                }
            }),
    {
        let record = self.check_status(
            market_id,
            MarketStatus::Resolved,
            Error::MarketNotResolved,
        )?;
        let ghost m = record@;
        let token = record.market.token;
        let fee_pool: i128 = match record.lp_fee_pool {
            Some(pool) => pool,
            None => 0,
        };
        if fee_pool <= 0 {
            return Err(Error::NoFeePool);
        }
        let (lp_amount, total_lp) = match &record.lp {
            Some(contributions) => {
                let lp_amount: i128 = contributions.get(lp);
                if lp_amount <= 0 {
                    return Err(Error::NoLpContribution);
                }
                let total_lp: i128 = contributions.sum()?;
                (lp_amount, total_lp)
            },
            None => {
                return Err(Error::NoLpContribution);
            },
        };
        let reward: i128 = cmuldiv(lp_amount, fee_pool, total_lp)?;
        if reward <= 0 {
            return Err(Error::RewardRoundsToZero);
        }
        proof {
            lemma_reward(m, lp);
        }
        let mut record = self.take_market(market_id);
        let mut shares = match record.lp {
            Some(shares) => shares,
            None => {
                return Err(Error::NoLpContribution);
            },
        };
        shares.set(lp, 0);
        record.lp = Some(shares);
        record.lp_fee_pool = Some(fee_pool - reward);
        assert(record@ =~= with_reward(m, lp, reward));
        assert(contributions(record@.lp->0));
        self.put_market(market_id, record);
        Ok(
            (
                reward,
                Effects::transfer_and_event(
                    Transfer::pay(token, lp, reward),
                    Event::LpRewardClaimed { market_id, provider: lp, reward },
                ),
            ),
        )
    }

    /// Price of an outcome in units of [`crate::lmsr::SCALE`].
    pub fn get_lmsr_price(&self, market_id: u64, option_index: u32) -> (res: Result<i128, Error>)
        requires
            self@.wf(),
        ensures
            ({
                let m = self@.markets[market_id];
                match res {
                    Ok(p) => {
                        &&& self@.markets.contains_key(market_id)
                        &&& option_index < m.outcomes()
                        &&& scalable(m.outcome_shares, m.lmsr_b as int)
                        &&& p == price(m.outcome_shares, m.lmsr_b as int, option_index as int)
                    },
                    Err(e) => e == (if !self@.markets.contains_key(market_id) {
                        Error::MarketNotFound
                    } else if option_index >= m.outcomes() {
                        Error::InvalidOption
                    } else {
                        Error::Overflow
                    }) && (self@.markets.contains_key(market_id) && option_index < m.outcomes()
                        ==> !scalable(m.outcome_shares, m.lmsr_b as int)),
                }
            }),
    {
        match self.markets.get(market_id) {
            None => Err(Error::MarketNotFound),
            Some(record) => lmsr_price(
                &record.outcome_shares.to_vec(),
                record.lmsr_b,
                option_index,
            ),
        }
    }
}

} // verus!
