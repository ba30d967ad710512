//! The life of a market: creation, locking, proposal, dispute, resolution.
use vstd::prelude::*;

use crate::access::{role_error, shutdown_error};
use crate::checked_math::{cmuldiv, later, moment, scaled};
use crate::fees::{checked_dynamic_fee, fee_rate};
use crate::holdings::{lemma_total_empty, Balances, Flags, PoolBalances, Shares};
use crate::state::{
    backed, holdings, texts, ContractState, Market, MarketRecord, MarketState, MarketView,
    PredictionMarket,
};
use crate::types::{
    Address, Effects, EffectsView, Error, Event, MarketStatus, Party, Role, Transfer,
    CHALLENGE_WINDOW, LIVENESS_WINDOW, MAX_OUTCOMES,
};

verus! {

/// Refusal of a new market before its fee is collected.
pub open spec fn create_error(
    s: ContractState,
    now: u64,
    creator: Address,
    id: u64,
    outcomes: nat,
    deadline: u64,
    lmsr_b: i128,
) -> Option<Error> {
    if role_error(s, creator, Role::Pauser) is Some {
        role_error(s, creator, Role::Pauser)
    } else if shutdown_error(s) is Some {
        shutdown_error(s)
    } else if lmsr_b <= 0 {
        Some(Error::LiquidityParameterNotPositive)
    } else if s.markets.contains_key(id) {
        Some(Error::MarketExists)
    } else if outcomes < 2 {
        Some(Error::TooFewOptions)
    } else if outcomes > MAX_OUTCOMES {
        Some(Error::TooManyOptions)
    } else if deadline <= now {
        Some(Error::DeadlineNotInFuture)
    } else if s.config.creation_fee > 0 && s.config.fee_destination is None {
        Some(Error::FeeDestinationMissing)
    } else {
        None
    }
}

/// The payment of the creation fee, where one is charged.
pub open spec fn creation_payment(s: ContractState, creator: Address, token: Address) -> Option<
    Transfer,
> {
    match s.config.fee_destination {
        Some(destination) if s.config.creation_fee > 0 => Some(
            Transfer {
                token,
                from: Party::Account(creator),
                to: Party::Account(destination),
                amount: s.config.creation_fee,
            },
        ),
        _ => None,
    }
}

/// A market in which nothing has happened yet.
pub open spec fn fresh_market(market: MarketView, lmsr_b: i128) -> MarketState {
    MarketState {
        market,
        total_shares: 0,
        lmsr_b,
        outcome_shares: Seq::new(market.options.len(), |i: int| 0i128),
        pool_balances: Map::new(|i: u32| i < market.options.len(), |i: u32| 0i128),
        positions: Seq::new(market.options.len(), |i: int| Map::empty()),
        lp: None,
        lp_fee_pool: None,
        dispute: None,
        claim_deadline: None,
        original_payouts: Map::empty(),
        claimed: Map::empty(),
        swept: false,
        winners_paid: 0,
        settlement_fee_paid: false,
        user_cost: Map::empty(),
        refund_claimed: Map::empty(),
        payout_claimed: Map::empty(),
        proposed_outcome_id: None,
        unlock_timestamp: None,
    }
}

/// What a creator describes.
pub open spec fn described(
    id: u64,
    question: Seq<char>,
    options: Seq<Seq<char>>,
    deadline: u64,
    token: Address,
    condition_market_id: Option<u64>,
    condition_outcome: Option<u32>,
) -> MarketView {
    MarketView {
        id,
        question,
        options,
        deadline,
        status: MarketStatus::Active,
        winning_outcome: 0,
        token,
        proposed_outcome: None,
        proposal_timestamp: 0,
        condition_market_id,
        condition_outcome,
    }
}

/// What the creation of a market announces.
pub open spec fn creation_events(
    s: ContractState,
    creator: Address,
    market: MarketView,
    lmsr_b: i128,
) -> Seq<Event> {
    let created = Event::MarketCreated {
        market_id: market.id,
        creator,
        outcomes: market.options.len() as u32,
        deadline: market.deadline,
        token: market.token,
        lmsr_b,
        creation_fee: s.config.creation_fee,
    };
    match s.config.fee_destination {
        Some(destination) if s.config.creation_fee > 0 => seq![
            Event::FeeCollected {
                market_id: market.id,
                creator,
                destination,
                amount: s.config.creation_fee,
            },
            created,
        ],
        _ => seq![created],
    }
}

/// A fresh market is sound.
pub proof fn lemma_fresh_market(market: MarketView, lmsr_b: i128)
    requires
        2 <= market.options.len() <= MAX_OUTCOMES,
        market.winning_outcome < market.options.len(),
        lmsr_b > 0,
    ensures
        fresh_market(market, lmsr_b).wf(),
{
    let m = fresh_market(market, lmsr_b);
    lemma_total_empty();
    assert forall|i: int| 0 <= i < m.outcomes() implies backed(
        #[trigger] m.positions[i],
        #[trigger] m.outcome_shares[i],
    ) by {
        assert(m.positions[i] == Map::<Address, i128>::empty());
    }
}

impl PredictionMarket {
    /// Refuse a new market that the contract would not take, whatever its fee.
    fn check_new_market(
        &self,
        now: u64,
        creator: Address,
        id: u64,
        outcomes: usize,
        deadline: u64,
        lmsr_b: i128,
    ) -> (res: Result<(), Error>)
        ensures
            match res {
                Ok(_) => create_error(
                    self@,
                    now,
                    creator,
                    id,
                    outcomes as nat,
                    deadline,
                    lmsr_b,
                ) is None,
                Err(e) => create_error(
                    self@,
                    now,
                    creator,
                    id,
                    outcomes as nat,
                    deadline,
                    lmsr_b,
                ) == Some(e),
            },
    {
        self.require_role(creator, Role::Pauser)?;
        self.check_platform_active()?;
        if lmsr_b <= 0 {
            return Err(Error::LiquidityParameterNotPositive);
        }
        if self.markets.get(id).is_some() {
            return Err(Error::MarketExists);
        }
        if outcomes < 2 {
            return Err(Error::TooFewOptions);
        }
        if outcomes > MAX_OUTCOMES as usize {
            return Err(Error::TooManyOptions);
        }
        if deadline <= now {
            return Err(Error::DeadlineNotInFuture);
        }
        if self.config.creation_fee > 0 && self.config.fee_destination.is_none() {
            return Err(Error::FeeDestinationMissing);
        }
        Ok(())
    }

    /// The transfer that has to succeed before [`PredictionMarket::create_market`]
    /// takes a new market, where a creation fee is configured.
    pub fn creation_charge(
        &self,
        now: u64,
        creator: Address,
        id: u64,
        options: &Vec<String>,
        deadline: u64,
        token: Address,
        lmsr_b: i128,
    ) -> (res: Result<Option<Transfer>, Error>)
        ensures
            match res {
                Ok(transfer) => {
                    &&& create_error(
                        self@,
                        now,
                        creator,
                        id,
                        options@.len(),
                        deadline,
                        lmsr_b,
                    ) is None
                    &&& transfer == creation_payment(self@, creator, token)
                },
                Err(e) => create_error(
                    self@,
                    now,
                    creator,
                    id,
                    options@.len(),
                    deadline,
                    lmsr_b,
                ) == Some(e),
            },
    {
        self.check_new_market(now, creator, id, options.len(), deadline, lmsr_b)?;
        match self.config.fee_destination {
            Some(destination) if self.config.creation_fee > 0 => Ok(
                Some(
                    Transfer {
                        token,
                        from: Party::Account(creator),
                        to: Party::Account(destination),
                        amount: self.config.creation_fee,
                    },
                ),
            ),
            _ => Ok(None),
        }
    }

    /// Create a new prediction market.
    /// Blocked when the platform is shut down.
    ///
    /// # Creation Fee
    /// If a non-zero creation fee is configured, it is collected from the
    /// creator before the market is stored: `charged` says whether the transfer
    /// that [`PredictionMarket::creation_charge`] asked for succeeded. If it did
    /// not, the call is refused with `InsufficientFeeBalance` and no market is
    /// created.
    pub fn create_market(
        &mut self,
        env: &soroban_sdk::Env,
        now: u64,
        creator: Address,
        id: u64,
        question: String,
        options: Vec<String>,
        deadline: u64,
        token: Address,
        lmsr_b: i128,
        condition_market_id: Option<u64>,
        condition_outcome: Option<u32>,
        charged: bool,
    ) -> (res: Result<Effects, Error>)
        requires
            old(self)@.wf(),
        ensures
            final(self)@.wf(),
            ({
                let s = old(self)@;
                let error = create_error(
                    s,
                    now,
                    creator,
                    id,
                    options@.len(),
                    deadline,
                    lmsr_b,
                );
                let market = described(
                    id,
                    question@,
                    texts(options@),
                    deadline,
                    token,
                    condition_market_id,
                    condition_outcome,
                );
                match res {
                    Ok(effects) => {
                        &&& error is None
                        &&& creation_payment(s, creator, token) is Some ==> charged
                        &&& final(self)@ == (ContractState {
                            paused: s.paused.insert(id, false),
                            ..s.with_market(id, fresh_market(market, lmsr_b))
                        })
                        &&& effects@ == (EffectsView {
                            transfers: seq![],
                            events: creation_events(s, creator, market, lmsr_b),
                        })
                    },
                    Err(e) => {
                        &&& error is Some ==> error == Some(e)
                        &&& error is None ==> e == Error::InsufficientFeeBalance && !charged
                            && creation_payment(s, creator, token) is Some
                        &&& final(self)@ == s
                    },
                }
            }),
    {
        self.check_new_market(now, creator, id, options.len(), deadline, lmsr_b)?;
        let n: u32 = options.len() as u32;
        let mut effects = Effects::none();
        match self.config.fee_destination {
            Some(destination) if self.config.creation_fee > 0 => {
                if !charged {
                    return Err(Error::InsufficientFeeBalance);
                }
                effects.events.push(
                    Event::FeeCollected {
                        market_id: id,
                        creator,
                        destination,
                        amount: self.config.creation_fee,
                    },
                );
            },
            _ => {},
        }
        effects.events.push(
            Event::MarketCreated {
                market_id: id,
                creator,
                outcomes: n,
                deadline,
                token,
                lmsr_b,
                creation_fee: self.config.creation_fee,
            },
        );

        let mut outcome_shares = Shares::new(env);
        let mut pool_balances = PoolBalances::new(env);
        let mut positions: Vec<Balances> = Vec::new();
        let mut i: u32 = 0;
        while i < n
            invariant
                i <= n,
                outcome_shares@ =~= Seq::new(i as nat, |j: int| 0i128),
                pool_balances@ =~= Map::new(|j: u32| j < i, |j: u32| 0i128),
                holdings(positions@) =~= Seq::new(i as nat, |j: int| Map::empty()),
            decreases n - i,
        {
            let ghost before = positions@;
            outcome_shares.push(0);
            pool_balances.set(i, 0);
            positions.push(Balances::new(env));
            assert(holdings(positions@) =~= holdings(before).push(Map::empty()));
            i = i + 1;
        }
        let record = MarketRecord {
            market: Market {
                id,
                question,
                options,
                deadline,
                status: MarketStatus::Active,
                winning_outcome: 0,
                token,
                proposed_outcome: None,
                proposal_timestamp: 0,
                condition_market_id,
                condition_outcome,
            },
            total_shares: 0,
            lmsr_b,
            outcome_shares,
            pool_balances,
            positions,
            lp: None,
            lp_fee_pool: None,
            dispute: None,
            claim_deadline: None,
            original_payouts: Balances::new(env),
            claimed: Flags::new(env),
            swept: false,
            winners_paid: 0,
            settlement_fee_paid: false,
            user_cost: Balances::new(env),
            refund_claimed: Flags::new(env),
            payout_claimed: Flags::new(env),
            proposed_outcome_id: None,
            unlock_timestamp: None,
        };
        assert(record@ =~= fresh_market(record@.market, lmsr_b));
        proof {
            lemma_fresh_market(record@.market, lmsr_b);
        }
        self.put_market(id, record);
        self.paused.set(id, false);
        Ok(effects)
    }
}

/// Refusal where a market is not there or not in the status that a call needs.
pub open spec fn status_error(
    s: ContractState,
    id: u64,
    needed: MarketStatus,
    error: Error,
) -> Option<Error> {
    if !s.markets.contains_key(id) {
        Some(Error::MarketNotFound)
    } else if s.markets[id].market.status != needed {
        Some(error)
    } else {
        None
    }
}

/// Refusal to lock a market.
pub open spec fn lock_error(s: ContractState, caller: Address, id: u64) -> Option<Error> {
    if role_error(s, caller, Role::Oracle) is Some {
        role_error(s, caller, Role::Oracle)
    } else {
        status_error(s, id, MarketStatus::Active, Error::MarketNotActive)
    }
}

/// Refusal of an oracle's proposal.
pub open spec fn propose_outcome_error(
    s: ContractState,
    now: u64,
    caller: Address,
    id: u64,
    outcome: u32,
) -> Option<Error> {
    if role_error(s, caller, Role::Oracle) is Some {
        role_error(s, caller, Role::Oracle)
    } else if status_error(s, id, MarketStatus::Locked, Error::MarketNotLocked) is Some {
        status_error(s, id, MarketStatus::Locked, Error::MarketNotLocked)
    } else if outcome >= s.markets[id].outcomes() {
        Some(Error::InvalidOutcome)
    } else {
        moment(now + CHALLENGE_WINDOW).err()
    }
}

/// A market with an oracle's proposal.
pub open spec fn with_proposed_outcome(m: MarketState, now: u64, outcome: u32) -> MarketState {
    MarketState {
        market: MarketView {
            status: MarketStatus::Proposed,
            proposed_outcome: Some(outcome),
            ..m.market
        },
        proposed_outcome_id: Some(outcome),
        unlock_timestamp: Some((now + CHALLENGE_WINDOW) as u64),
        ..m
    }
}

/// Refusal of a resolver's proposal.
pub open spec fn propose_resolution_error(
    s: ContractState,
    resolver: Address,
    id: u64,
    outcome: u32,
) -> Option<Error> {
    if role_error(s, resolver, Role::Resolver) is Some {
        role_error(s, resolver, Role::Resolver)
    } else if status_error(s, id, MarketStatus::Active, Error::MarketNotActive) is Some {
        status_error(s, id, MarketStatus::Active, Error::MarketNotActive)
    } else if outcome >= s.markets[id].outcomes() {
        Some(Error::InvalidOutcome)
    } else {
        None
    }
}

/// A market with a resolver's proposal.
pub open spec fn with_proposed_resolution(m: MarketState, now: u64, outcome: u32) -> MarketState {
    MarketState {
        market: MarketView {
            status: MarketStatus::Proposed,
            winning_outcome: outcome,
            proposed_outcome: Some(outcome),
            proposal_timestamp: now,
            ..m.market
        },
        ..m
    }
}

/// Refusal of a challenge to a proposal.
pub open spec fn dispute_error(s: ContractState, id: u64, bond: i128) -> Option<Error> {
    if bond <= 0 {
        Some(Error::BondNotPositive)
    } else {
        status_error(s, id, MarketStatus::Proposed, Error::NotInProposedState)
    }
}

/// Refusal to conclude a market because of the market it depends on.
pub open spec fn condition_error(s: ContractState, m: MarketState) -> Option<Error> {
    match m.market.condition_market_id {
        None => None,
        Some(c) => if !s.markets.contains_key(c) {
            Some(Error::ConditionMarketNotFound)
        } else if s.markets[c].market.status != MarketStatus::Resolved {
            Some(Error::ConditionMarketUnresolved)
        } else {
            None
        },
    }
}

/// The outcome that the market depended on has to have; the first where none
/// is named.
pub open spec fn expected_outcome(m: MarketState) -> u32 {
    match m.market.condition_outcome {
        Some(o) => o,
        None => 0,
    }
}

/// The market that this one depends on, if any, came out as expected.
pub open spec fn condition_met(s: ContractState, m: MarketState) -> bool {
    m.market.condition_market_id matches Some(c) ==> s.markets[c].market.winning_outcome
        == expected_outcome(m)
}

/// The liquidity providers' part of the pool, 3%, where there are any.
pub open spec fn lp_part(m: MarketState) -> Result<i128, Error> {
    if m.lp is Some {
        scaled(m.total_shares as int, 3, 100)
    } else {
        Ok(0)
    }
}

/// Refusal to conclude a market.
pub open spec fn conclude_error(s: ContractState, id: u64) -> Option<Error> {
    let m = s.markets[id];
    if condition_error(s, m) is Some {
        condition_error(s, m)
    } else if !condition_met(s, m) {
        None
    } else if lp_part(m) is Err {
        lp_part(m).err()
    } else {
        fee_rate(m.total_shares).err()
    }
}

/// A market concluded with an outcome: resolved where the condition it depends
/// on is met, and otherwise voided.
pub open spec fn concluded(s: ContractState, now: u64, id: u64, outcome: u32) -> MarketState {
    let m = s.markets[id];
    if condition_met(s, m) {
        MarketState {
            market: MarketView {
                status: MarketStatus::Resolved,
                winning_outcome: outcome,
                ..m.market
            },
            claim_deadline: Some(now),
            lp_fee_pool: if lp_part(m)->Ok_0 > 0 {
                Some(lp_part(m)->Ok_0)
            } else {
                m.lp_fee_pool
            },
            ..m
        }
    } else {
        MarketState {
            market: MarketView {
                status: MarketStatus::Voided,
                winning_outcome: outcome,
                ..m.market
            },
            ..m
        }
    }
}

/// What the conclusion of a market announces.
pub open spec fn conclusion_event(s: ContractState, id: u64, outcome: u32) -> Event {
    let m = s.markets[id];
    if condition_met(s, m) {
        Event::MarketResolved {
            market_id: id,
            winning_outcome: outcome,
            total_pool: m.total_shares,
            fee_bps: fee_rate(m.total_shares)->Ok_0,
        }
    } else {
        let c = m.market.condition_market_id->0;
        Event::MarketVoided {
            market_id: id,
            condition_market_id: c,
            condition_outcome: s.markets[c].market.winning_outcome,
        }
    }
}

/// Refusal to settle an oracle's proposal.
pub open spec fn settle_error(s: ContractState, now: u64, id: u64) -> Option<Error> {
    let m = s.markets[id];
    if status_error(s, id, MarketStatus::Proposed, Error::MarketNotProposed) is Some {
        status_error(s, id, MarketStatus::Proposed, Error::MarketNotProposed)
    } else if m.unlock_timestamp is None {
        Some(Error::UnlockTimestampMissing)
    } else if now < m.unlock_timestamp->0 {
        Some(Error::ChallengeTimerRunning)
    } else if m.proposed_outcome_id is None {
        Some(Error::ProposedOutcomeMissing)
    } else {
        conclude_error(s, id)
    }
}

/// Refusal of a final resolution.
pub open spec fn resolve_error(
    s: ContractState,
    now: u64,
    resolver: Address,
    id: u64,
    outcome: u32,
) -> Option<Error> {
    let m = s.markets[id];
    if role_error(s, resolver, Role::Resolver) is Some {
        role_error(s, resolver, Role::Resolver)
    } else if !s.markets.contains_key(id) {
        Some(Error::MarketNotFound)
    } else if m.market.status != MarketStatus::Proposed && m.market.status
        != MarketStatus::Disputed {
        Some(Error::NotProposedOrDisputed)
    } else if m.unlock_timestamp matches Some(t) && now < t {
        Some(Error::ChallengeTimerRunning)
    } else if moment(m.market.proposal_timestamp + LIVENESS_WINDOW) is Err {
        Some(Error::Overflow)
    } else if now < m.market.proposal_timestamp + LIVENESS_WINDOW {
        Some(Error::LivenessWindowOpen)
    } else if outcome >= m.outcomes() {
        Some(Error::InvalidOutcome)
    } else {
        conclude_error(s, id)
    }
}

impl PredictionMarket {
    /// Pass a market that is there and in the status that a call needs.
    pub(crate) fn check_status(&self, id: u64, needed: MarketStatus, error: Error) -> (res: Result<
        &MarketRecord,
        Error,
    >)
        ensures
            match res {
                Ok(record) => {
                    &&& status_error(self@, id, needed, error) is None
                    &&& record@ == self@.markets[id]
                },
                Err(e) => status_error(self@, id, needed, error) == Some(e),
            },
    {
        match self.markets.get(id) {
            None => Err(Error::MarketNotFound),
            Some(record) => if record.market.status != needed {
                Err(error)
            } else {
                Ok(record)
            },
        }
    }

    /// Lock market before proposing outcome (Oracle only).
    pub fn lock_market(&mut self, caller: Address, market_id: u64) -> (res: Result<(), Error>)
        requires
            old(self)@.wf(),
        ensures
            final(self)@.wf(),
            match res {
                Ok(_) => {
                    &&& lock_error(old(self)@, caller, market_id) is None
                    &&& final(self)@ == old(self)@.with_market(
                        market_id,
                        old(self)@.markets[market_id].with_status(MarketStatus::Locked),
                    )
                },
                Err(e) => {
                    &&& lock_error(old(self)@, caller, market_id) == Some(e)
                    &&& final(self)@ == old(self)@
                },
            },
    {
        self.require_role(caller, Role::Oracle)?;
        self.check_status(market_id, MarketStatus::Active, Error::MarketNotActive)?;
        let mut record = self.take_market(market_id);
        record.market.status = MarketStatus::Locked;
        self.put_market(market_id, record);
        Ok(())
    }

    /// Move a market from Locked to Proposed and start its challenge timer
    /// (Oracle only).
    pub fn propose_outcome(
        &mut self,
        now: u64,
        caller: Address,
        market_id: u64,
        proposed_id: u32,
    ) -> (res: Result<(), Error>)
        requires
            old(self)@.wf(),
        ensures
            final(self)@.wf(),
            match res {
                Ok(_) => {
                    &&& propose_outcome_error(old(self)@, now, caller, market_id, proposed_id)
                        is None
                    &&& final(self)@ == old(self)@.with_market(
                        market_id,
                        with_proposed_outcome(old(self)@.markets[market_id], now, proposed_id),
                    )
                },
                Err(e) => {
                    &&& propose_outcome_error(old(self)@, now, caller, market_id, proposed_id)
                        == Some(e)
                    &&& final(self)@ == old(self)@
                },
            },
    {
        self.require_role(caller, Role::Oracle)?;
        let record = self.check_status(market_id, MarketStatus::Locked, Error::MarketNotLocked)?;
        if proposed_id as usize >= record.market.options.len() {
            return Err(Error::InvalidOutcome);
        }
        let unlock_timestamp: u64 = later(now, CHALLENGE_WINDOW)?;
        let mut record = self.take_market(market_id);
        record.market.status = MarketStatus::Proposed;
        record.market.proposed_outcome = Some(proposed_id);
        record.proposed_outcome_id = Some(proposed_id);
        record.unlock_timestamp = Some(unlock_timestamp);
        assert(record@ =~= with_proposed_outcome(old(self)@.markets[market_id], now, proposed_id));
        self.put_market(market_id, record);
        Ok(())
    }

    /// Move a market from Active to Proposed with the resolver's outcome
    /// (Resolver only).
    pub fn propose_resolution(
        &mut self,
        now: u64,
        resolver: Address,
        market_id: u64,
        winning_outcome: u32,
    ) -> (res: Result<(), Error>)
        requires
            old(self)@.wf(),
        ensures
            final(self)@.wf(),
            match res {
                Ok(_) => {
                    &&& propose_resolution_error(old(self)@, resolver, market_id, winning_outcome)
                        is None
                    &&& final(self)@ == old(self)@.with_market(
                        market_id,
                        with_proposed_resolution(
                            old(self)@.markets[market_id],
                            now,
                            winning_outcome,
                        ),
                    )
                },
                Err(e) => {
                    &&& propose_resolution_error(old(self)@, resolver, market_id, winning_outcome)
                        == Some(e)
                    &&& final(self)@ == old(self)@
                },
            },
    {
        self.require_role(resolver, Role::Resolver)?;
        let record = self.check_status(market_id, MarketStatus::Active, Error::MarketNotActive)?;
        if winning_outcome as usize >= record.market.options.len() {
            return Err(Error::InvalidOutcome);
        }
        let mut record = self.take_market(market_id);
        record.market.status = MarketStatus::Proposed;
        record.market.winning_outcome = winning_outcome;
        record.market.proposed_outcome = Some(winning_outcome);
        record.market.proposal_timestamp = now;
        assert(record@ =~= with_proposed_resolution(
            old(self)@.markets[market_id],
            now,
            winning_outcome,
        ));
        self.put_market(market_id, record);
        Ok(())
    }

    /// Disputer challenges a Proposed result by posting a bond.
    /// Moves market to Disputed state and freezes payouts.
    pub fn dispute(&mut self, market_id: u64, disputer: Address, bond_amount: i128) -> (res: Result<
        Effects,
        Error,
    >)
        requires
            old(self)@.wf(),
        ensures
            final(self)@.wf(),
            match res {
                Ok(effects) => {
                    let m = old(self)@.markets[market_id];
                    &&& dispute_error(old(self)@, market_id, bond_amount) is None
                    &&& final(self)@ == old(self)@.with_market(
                        market_id,
                        m.with_status(MarketStatus::Disputed),
                    )
                    &&& effects@ == (EffectsView {
                        transfers: seq![Transfer::collect(m.market.token, disputer, bond_amount)],
                        events: seq![
                            Event::DisputeRaised { market_id, disputer, bond: bond_amount },
                        ],
                    })
                },
                Err(e) => {
                    &&& dispute_error(old(self)@, market_id, bond_amount) == Some(e)
                    &&& final(self)@ == old(self)@
                },
            },
    {
        if bond_amount <= 0 {
            return Err(Error::BondNotPositive);
        }
        self.check_status(market_id, MarketStatus::Proposed, Error::NotInProposedState)?;
        let mut record = self.take_market(market_id);
        let token = record.market.token;
        record.market.status = MarketStatus::Disputed;
        self.put_market(market_id, record);
        Ok(
            Effects::transfer_and_event(
                Transfer::collect(token, disputer, bond_amount),
                Event::DisputeRaised { market_id, disputer, bond: bond_amount },
            ),
        )
    }

    /// Give a market its final outcome, or void it where the market that it
    /// depends on came out otherwise.
    fn conclude(&mut self, now: u64, market_id: u64, outcome: u32) -> (res: Result<Effects, Error>)
        requires
            old(self)@.wf(),
            old(self)@.markets.contains_key(market_id),
            outcome < old(self)@.markets[market_id].outcomes(),
        ensures
            final(self)@.wf(),
            match res {
                Ok(effects) => {
                    &&& conclude_error(old(self)@, market_id) is None
                    &&& final(self)@ == old(self)@.with_market(
                        market_id,
                        concluded(old(self)@, now, market_id, outcome),
                    )
                    &&& effects@ == (EffectsView {
                        transfers: seq![],
                        events: seq![conclusion_event(old(self)@, market_id, outcome)],
                    })
                },
                Err(e) => {
                    &&& conclude_error(old(self)@, market_id) == Some(e)
                    &&& final(self)@ == old(self)@
                },
            },
    {
        let (condition_market_id, condition_outcome, total_pool, has_lps) = match self.markets.get(
            market_id,
        ) {
            None => {
                return Err(Error::MarketNotFound);
            },
            Some(record) => (
                record.market.condition_market_id,
                record.market.condition_outcome,
                record.total_shares,
                record.lp.is_some(),
            ),
        };
        if let Some(condition) = condition_market_id {
            let (status, winning_outcome) = match self.markets.get(condition) {
                None => {
                    return Err(Error::ConditionMarketNotFound);
                },
                Some(record) => (record.market.status, record.market.winning_outcome),
            };
            if status != MarketStatus::Resolved {
                return Err(Error::ConditionMarketUnresolved);
            }
            let expected: u32 = match condition_outcome {
                Some(o) => o,
                None => 0,
            };
            if winning_outcome != expected {
                let mut record = self.take_market(market_id);
                record.market.status = MarketStatus::Voided;
                record.market.winning_outcome = outcome;
                assert(record@ =~= concluded(old(self)@, now, market_id, outcome));
                self.put_market(market_id, record);
                return Ok(
                    Effects::event(
                        Event::MarketVoided {
                            market_id,
                            condition_market_id: condition,
                            condition_outcome: winning_outcome,
                        },
                    ),
                );
            }
        }
        let fee_pool: i128 = if has_lps {
            cmuldiv(total_pool, 3, 100)?
        } else {
            0
        };
        let fee_bps: u32 = checked_dynamic_fee(total_pool)?;
        let mut record = self.take_market(market_id);
        record.market.status = MarketStatus::Resolved;
        record.market.winning_outcome = outcome;
        record.claim_deadline = Some(now);
        if fee_pool > 0 {
            record.lp_fee_pool = Some(fee_pool);
        }
        assert(record@ =~= concluded(old(self)@, now, market_id, outcome));
        self.put_market(market_id, record);
        Ok(
            Effects::event(
                Event::MarketResolved { market_id, winning_outcome: outcome, total_pool, fee_bps },
            ),
        )
    }

    /// Finalise an oracle's proposal once its challenge timer has run out.
    /// Anyone may call this: the timer handles security.
    pub fn settle(&mut self, now: u64, market_id: u64) -> (res: Result<Effects, Error>)
        requires
            old(self)@.wf(),
        ensures
            final(self)@.wf(),
            match res {
                Ok(effects) => {
                    let outcome = old(self)@.markets[market_id].proposed_outcome_id->0;
                    &&& settle_error(old(self)@, now, market_id) is None
                    &&& final(self)@ == old(self)@.with_market(
                        market_id,
                        concluded(old(self)@, now, market_id, outcome),
                    )
                    &&& effects@ == (EffectsView {
                        transfers: seq![],
                        events: seq![conclusion_event(old(self)@, market_id, outcome)],
                    })
                },
                Err(e) => {
                    &&& settle_error(old(self)@, now, market_id) == Some(e)
                    &&& final(self)@ == old(self)@
                },
            },
    {
        let record = self.check_status(
            market_id,
            MarketStatus::Proposed,
            Error::MarketNotProposed,
        )?;
        let unlock_timestamp: u64 = match record.unlock_timestamp {
            None => {
                return Err(Error::UnlockTimestampMissing);
            },
            Some(t) => t,
        };
        if now < unlock_timestamp {
            return Err(Error::ChallengeTimerRunning);
        }
        match record.proposed_outcome_id {
            None => Err(Error::ProposedOutcomeMissing),
            Some(outcome) => self.conclude(now, market_id, outcome),
        }
    }

    /// Resolve market finally after potential dispute. Resolver only.
    /// Neither a resolver's liveness window nor an oracle's challenge period can
    /// be cut short.
    pub fn resolve_market(
        &mut self,
        now: u64,
        resolver: Address,
        market_id: u64,
        winning_outcome: u32,
    ) -> (res: Result<Effects, Error>)
        requires
            old(self)@.wf(),
        ensures
            final(self)@.wf(),
            match res {
                Ok(effects) => {
                    &&& resolve_error(old(self)@, now, resolver, market_id, winning_outcome) is None
                    &&& final(self)@ == old(self)@.with_market(
                        market_id,
                        concluded(old(self)@, now, market_id, winning_outcome),
                    )
                    &&& effects@ == (EffectsView {
                        transfers: seq![],
                        events: seq![conclusion_event(old(self)@, market_id, winning_outcome)],
                    })
                },
                Err(e) => {
                    &&& resolve_error(old(self)@, now, resolver, market_id, winning_outcome)
                        == Some(e)
                    &&& final(self)@ == old(self)@
                },
            },
    {
        self.require_role(resolver, Role::Resolver)?;
        match self.markets.get(market_id) {
            None => {
                return Err(Error::MarketNotFound);
            },
            Some(record) => {
                if record.market.status != MarketStatus::Proposed && record.market.status
                    != MarketStatus::Disputed {
                    return Err(Error::NotProposedOrDisputed);
                }
                if let Some(t) = record.unlock_timestamp {
                    if now < t {
                        return Err(Error::ChallengeTimerRunning);
                    }
                }
                let end: u64 = later(record.market.proposal_timestamp, LIVENESS_WINDOW)?;
                if now < end {
                    return Err(Error::LivenessWindowOpen);
                }
                if winning_outcome as usize >= record.market.options.len() {
                    return Err(Error::InvalidOutcome);
                }
            },
        }
        self.conclude(now, market_id, winning_outcome)
    }
}

} // verus!
