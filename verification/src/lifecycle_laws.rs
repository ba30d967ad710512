//! When a market is created, locked, proposed, made final, paid out and swept,
//! and what that changes.
use vstd::prelude::*;

use crate::checked_math::lemma_quotient_fits;
use crate::fee_laws::{is_fee_rate, lemma_fee_is_proportional};
use crate::holdings::lemma_ordered_lists;
use crate::market::{
    conclude_error, concluded, conclusion_event, create_error, creation_events, described,
    fresh_market, lock_error, propose_outcome_error, propose_resolution_error, resolve_error,
    settle_error, with_proposed_outcome, with_proposed_resolution,
};
use crate::payouts::{batch_error, batch_payout_error, winners};
use crate::state::{ContractState, MarketState, MarketView};
use crate::types::{AccessPlatformStatus, Address, Error, Event, MarketStatus};
use crate::vault::{original_error, sweep_error, sweep_guard};

verus! {

/// A market is created if and only if the creator may pause markets, the platform
/// is not shut down, the liquidity parameter is positive, the number is free,
/// there are two to eight options, the deadline lies ahead, and a creation fee
/// has somewhere to go.
pub proof fn lemma_creation_is_taken(
    s: ContractState,
    now: u64,
    creator: Address,
    id: u64,
    outcomes: nat,
    deadline: u64,
    lmsr_b: i128,
)
    ensures
        ({
            let error = create_error(s, now, creator, id, outcomes, deadline, lmsr_b);
            &&& error is None <==> {
                &&& s.config.pauser == Some(creator)
                &&& s.config.status == AccessPlatformStatus::Active
                &&& lmsr_b > 0
                &&& !s.markets.contains_key(id)
                &&& 2 <= outcomes <= 8
                &&& deadline > now
                &&& s.config.creation_fee > 0 ==> s.config.fee_destination is Some
            }
            &&& error == Some(Error::PlatformShutDown) ==> s.config.status
                == AccessPlatformStatus::Shutdown
            &&& error == Some(Error::LiquidityParameterNotPositive) ==> lmsr_b <= 0
            &&& error == Some(Error::MarketExists) ==> s.markets.contains_key(id)
            &&& error == Some(Error::TooFewOptions) ==> outcomes < 2
            &&& error == Some(Error::TooManyOptions) ==> outcomes > 8
            &&& error == Some(Error::DeadlineNotInFuture) ==> deadline <= now
            &&& error == Some(Error::FeeDestinationMissing) ==> s.config.fee_destination is None
        }),
{
}

/// A new market is open and as its creator describes it: nothing is paid in, held,
/// proposed, disputed or recorded. Its creation is announced, behind the fee where
/// one is charged.
pub proof fn lemma_new_market_is_empty(
    s: ContractState,
    creator: Address,
    id: u64,
    question: Seq<char>,
    options: Seq<Seq<char>>,
    deadline: u64,
    token: Address,
    condition_market_id: Option<u64>,
    condition_outcome: Option<u32>,
    lmsr_b: i128,
)
    ensures
        ({
            let market = described(
                id,
                question,
                options,
                deadline,
                token,
                condition_market_id,
                condition_outcome,
            );
            let m = fresh_market(market, lmsr_b);
            let events = creation_events(s, creator, market, lmsr_b);
            &&& m.market.id == id && m.market.question == question && m.market.options == options
            &&& m.market.deadline == deadline && m.market.token == token
            &&& m.market.status == MarketStatus::Active
            &&& m.market.condition_market_id == condition_market_id
            &&& m.market.condition_outcome == condition_outcome
            &&& m.market.proposed_outcome is None
            &&& m.lmsr_b == lmsr_b
            &&& m.total_shares == 0
            &&& m.outcome_shares.len() == options.len()
            &&& m.positions.len() == options.len()
            &&& forall|i: int|
                0 <= i < options.len() ==> #[trigger] m.outcome_shares[i] == 0
                    && m.positions[i] == Map::<Address, i128>::empty()
            &&& m.user_cost == Map::<Address, i128>::empty()
            &&& m.original_payouts == Map::<Address, i128>::empty()
            &&& m.lp is None && m.lp_fee_pool is None && m.dispute is None
            &&& m.claim_deadline is None && m.unlock_timestamp is None
            &&& m.proposed_outcome_id is None
            &&& !m.swept && !m.settlement_fee_paid && m.winners_paid == 0
            &&& events.len() == if s.config.creation_fee > 0 && s.config.fee_destination is Some {
                2int
            } else {
                1
            }
            &&& events.last() == (Event::MarketCreated {
                market_id: id,
                creator,
                outcomes: options.len() as u32,
                deadline,
                token,
                lmsr_b,
                creation_fee: s.config.creation_fee,
            })
        }),
{
}

/// Who may lock a market and propose its outcome, and in which state. An oracle's
/// proposal is for a locked market and unlocks a day later; a resolver's is for an
/// open one.
pub proof fn lemma_proposals_are_taken(
    s: ContractState,
    now: u64,
    caller: Address,
    id: u64,
    outcome: u32,
)
    ensures
        ({
            let m = s.markets[id];
            let resolver = s.config.resolver == Some(caller) || s.config.super_admin == Some(
                caller,
            );
            let by_oracle = with_proposed_outcome(m, now, outcome);
            let by_resolver = with_proposed_resolution(m, now, outcome);
            &&& lock_error(s, caller, id) is None <==> {
                &&& s.config.oracle == Some(caller)
                &&& s.markets.contains_key(id)
                &&& m.market.status == MarketStatus::Active
            }
            &&& propose_outcome_error(s, now, caller, id, outcome) is None <==> {
                &&& s.config.oracle == Some(caller)
                &&& s.markets.contains_key(id)
                &&& m.market.status == MarketStatus::Locked
                &&& outcome < m.market.options.len()
                &&& now + 86_400 <= u64::MAX
            }
            &&& propose_resolution_error(s, caller, id, outcome) is None <==> {
                &&& resolver
                &&& s.markets.contains_key(id)
                &&& m.market.status == MarketStatus::Active
                &&& outcome < m.market.options.len()
            }
            &&& now + 86_400 <= u64::MAX ==> by_oracle == (MarketState {
                market: MarketView {
                    status: MarketStatus::Proposed,
                    proposed_outcome: Some(outcome),
                    ..m.market
                },
                proposed_outcome_id: Some(outcome),
                unlock_timestamp: Some((now + 86_400) as u64),
                ..m
            })
            &&& by_resolver == (MarketState {
                market: MarketView {
                    status: MarketStatus::Proposed,
                    proposed_outcome: Some(outcome),
                    winning_outcome: outcome,
                    proposal_timestamp: now,
                    ..m.market
                },
                ..m
            })
            &&& m.with_status(MarketStatus::Locked) == (MarketState {
                market: MarketView { status: MarketStatus::Locked, ..m.market },
                ..m
            })
            &&& m.with_status(MarketStatus::Disputed) == (MarketState {
                market: MarketView { status: MarketStatus::Disputed, ..m.market },
                ..m
            })
        }),
{
}

/// The market that another depends on does not stand in the way of its
/// conclusion: there is none, or it is resolved.
pub open spec fn unconditional(s: ContractState, m: MarketState) -> bool {
    m.market.condition_market_id matches Some(c) ==> s.markets.contains_key(c)
        && s.markets[c].market.status == MarketStatus::Resolved
}

/// A proposal is settled if and only if it is an oracle's, it stands, and its day
/// is over; it is resolved if and only if the caller may resolve markets, it
/// stands or was challenged, an oracle's day is over and so is the day since a
/// resolver's proposal, and the outcome is one of the options. Either way the
/// market that it depends on has to be resolved, and the pool has to be one whose
/// fees can be computed.
pub proof fn lemma_conclusion_is_taken(
    s: ContractState,
    now: u64,
    caller: Address,
    id: u64,
    outcome: u32,
)
    requires
        s.markets[id].total_shares * 150 <= i128::MAX,
        s.markets[id].total_shares * 3 >= i128::MIN,
        s.markets[id].market.proposal_timestamp + 86_400 <= u64::MAX,
    ensures
        ({
            let m = s.markets[id];
            let settled = settle_error(s, now, id);
            let resolved = resolve_error(s, now, caller, id, outcome);
            &&& settled is None <==> {
                &&& s.markets.contains_key(id)
                &&& m.market.status == MarketStatus::Proposed
                &&& m.unlock_timestamp matches Some(t) && now >= t
                &&& m.proposed_outcome_id is Some
                &&& unconditional(s, m)
            }
            &&& resolved is None <==> {
                &&& s.config.resolver == Some(caller) || s.config.super_admin == Some(caller)
                &&& s.markets.contains_key(id)
                &&& m.market.status == MarketStatus::Proposed || m.market.status
                    == MarketStatus::Disputed
                &&& m.unlock_timestamp matches Some(t) ==> now >= t
                &&& now >= m.market.proposal_timestamp + 86_400
                &&& outcome < m.market.options.len()
                &&& unconditional(s, m)
            }
            &&& settled == Some(Error::ChallengeTimerRunning) ==> (m.unlock_timestamp matches Some(
                t,
            ) && now < t)
            &&& resolved == Some(Error::LivenessWindowOpen) ==> now < m.market.proposal_timestamp
                + 86_400
        }),
{
    let m = s.markets[id];
    lemma_fee_is_proportional(m.total_shares);
    lemma_quotient_fits(m.total_shares * 3, 100);
}

/// A market that is made final is resolved to the outcome, from now on, where the
/// market it depends on came out as expected; otherwise it is voided. Holdings,
/// payments and records stay as they are.
pub proof fn lemma_conclusion_changes(s: ContractState, now: u64, id: u64, outcome: u32)
    requires
        conclude_error(s, id) is None,
    ensures
        ({
            let m = s.markets[id];
            let after = concluded(s, now, id, outcome);
            let expected: u32 = if m.market.condition_outcome is Some {
                m.market.condition_outcome->0
            } else {
                0
            };
            let met = m.market.condition_market_id matches Some(c)
                ==> s.markets[c].market.winning_outcome == expected;
            let event = conclusion_event(s, id, outcome);
            &&& after.market == (MarketView {
                status: if met {
                    MarketStatus::Resolved
                } else {
                    MarketStatus::Voided
                },
                winning_outcome: outcome,
                ..m.market
            })
            &&& met ==> after.claim_deadline == Some(now)
            &&& !met ==> after.claim_deadline == m.claim_deadline && after.lp_fee_pool
                == m.lp_fee_pool
            &&& after == (MarketState {
                market: after.market,
                claim_deadline: after.claim_deadline,
                lp_fee_pool: after.lp_fee_pool,
                ..m
            })
            &&& met ==> (event matches Event::MarketResolved {
                market_id,
                winning_outcome,
                total_pool,
                fee_bps,
            } && market_id == id && winning_outcome == outcome && total_pool == m.total_shares
                && is_fee_rate(fee_bps as int, m.total_shares as int))
            &&& !met ==> (event matches Event::MarketVoided {
                market_id,
                condition_market_id,
                condition_outcome,
            } && market_id == id && Some(condition_market_id) == m.market.condition_market_id
                && condition_outcome == s.markets[condition_market_id].market.winning_outcome)
        }),
{
    lemma_fee_is_proportional(s.markets[id].total_shares);
}

/// When a batch, a payout to recipients and a claim on an original payout are
/// refused before it comes to amounts.
pub proof fn lemma_payments_are_guarded(
    s: ContractState,
    now: u64,
    id: u64,
    batch_size: u32,
    recipients: Seq<Address>,
    account: Address,
)
    ensures
        ({
            let m = s.markets[id];
            let resolved = s.markets.contains_key(id) && m.market.status == MarketStatus::Resolved;
            &&& batch_error(s, now, id, batch_size) is None ==> {
                &&& !s.config.locked
                &&& 1 <= batch_size <= 25
                &&& resolved
                &&& m.unlock_timestamp matches Some(t) ==> now >= t
            }
            &&& !s.config.locked && 1 <= batch_size <= 25 && resolved && (
            m.unlock_timestamp matches Some(t) ==> now >= t) && winners(m).dom().len() == 0
                && winners(m).dom().finite() ==> batch_error(s, now, id, batch_size) is None
            &&& batch_payout_error(s, id, recipients, account) is None ==> {
                &&& s.config.resolver == Some(account) || s.config.super_admin == Some(account)
                &&& !s.config.locked
                &&& recipients.len() <= 50
                &&& resolved
                &&& !(m.dispute matches Some(d) && d.active)
            }
            &&& original_error(s, id, account) is None ==> !s.config.locked && resolved
            &&& batch_error(s, now, id, batch_size) == Some(Error::BatchSizeOutOfRange) ==> !(1
                <= batch_size <= 25)
            &&& batch_error(s, now, id, batch_size) == Some(Error::SettlementBlocked) ==> (
            m.unlock_timestamp matches Some(t) && now < t)
            &&& batch_payout_error(s, id, recipients, account) == Some(Error::TooManyRecipients)
                ==> recipients.len() > 50
            &&& batch_payout_error(s, id, recipients, account) == Some(Error::PayoutsPaused) ==> (
            m.dispute matches Some(d) && d.active)
        }),
{
    let m = s.markets[id];
    if winners(m).dom().len() == 0 && winners(m).dom().finite() {
        lemma_ordered_lists(winners(m));
    }
}

/// A sweep comes to amounts if and only if the caller may resolve markets, the
/// market was resolved at least thirty days ago, and it was not swept before.
pub proof fn lemma_sweep_is_guarded(s: ContractState, now: u64, caller: Address, id: u64)
    requires
        s.markets[id].claim_deadline is Some,
        s.markets[id].claim_deadline->0 + 2_592_000 <= u64::MAX,
    ensures
        ({
            let m = s.markets[id];
            let guard = sweep_guard(s, now, caller, id);
            &&& guard is None <==> {
                &&& s.config.resolver == Some(caller) || s.config.super_admin == Some(caller)
                &&& s.markets.contains_key(id)
                &&& !m.swept
                &&& m.market.status == MarketStatus::Resolved
                &&& now >= m.claim_deadline->0 + 2_592_000
            }
            &&& sweep_error(s, now, caller, id) is None ==> guard is None
            &&& guard is None && winners(m).dom().len() == 0 ==> sweep_error(s, now, caller, id)
                is None
            &&& guard == Some(Error::AlreadySwept) ==> m.swept
            &&& guard == Some(Error::ClaimPeriodOpen) ==> now < m.claim_deadline->0 + 2_592_000
        }),
{
}

} // verus!
