//! What is on record of a market fits its status, from its creation on and
//! whatever call follows.
use vstd::prelude::*;

use crate::betting::{with_bet, with_exit, with_liquidity, with_reward};
use crate::disputes::{
    after_vote, close_error, fresh_dispute, open_error, resolution_time, vote_error,
};
use crate::holdings::flag_of;
use crate::market::{
    concluded, dispute_error, fresh_market, lock_error, propose_outcome_error,
    propose_resolution_error, resolve_error, settle_error, with_proposed_outcome,
    with_proposed_resolution,
};
use crate::payouts::{
    after_batch, after_claim, after_payout, batch_error, batch_payout_error, claim,
};
use crate::state::{ContractState, DisputeView, MarketState, MarketView};
use crate::types::{Address, Error, MarketStatus};
use crate::vault::{after_original, original_error, sweep_error, swept};

verus! {

/// A market was resolved, whether or not its resolution is under review.
pub open spec fn was_resolved(m: MarketState) -> bool {
    m.market.status == MarketStatus::Resolved || m.market.status == MarketStatus::ReReview
}

/// What is on record of a market fits its status.
///
/// - There is a time of resolution if and only if the market was resolved.
/// - There is an unlock time if and only if there is an oracle's proposal; that
///   is the proposal that stands, and the market is no longer open.
/// - There is a vote only on a market that was resolved, and only such a market
///   has paid winners, shared out its fee or been swept.
/// - Nobody is flagged as having claimed: whoever is paid loses the position.
pub open spec fn in_order(m: MarketState) -> bool {
    let status = m.market.status;
    &&& m.claim_deadline is Some <==> was_resolved(m)
    &&& m.unlock_timestamp is Some <==> m.proposed_outcome_id is Some
    &&& m.unlock_timestamp is Some ==> {
        &&& m.market.proposed_outcome == m.proposed_outcome_id
        &&& status != MarketStatus::Active
        &&& status != MarketStatus::Locked
    }
    &&& m.dispute is Some ==> was_resolved(m)
    &&& m.winners_paid > 0 || m.settlement_fee_paid || m.swept ==> was_resolved(m)
    &&& forall|a: Address| !#[trigger] flag_of(m.claimed, a)
}

/// A new market is in order.
pub proof fn lemma_new_market_is_in_order(market: MarketView, lmsr_b: i128)
    requires
        market.status == MarketStatus::Active,
    ensures
        in_order(fresh_market(market, lmsr_b)),
{
}

/// Bets, exits, liquidity, rewards and refunds leave a market in order.
pub proof fn lemma_trading_keeps_order(
    m: MarketState,
    outcome: u32,
    account: Address,
    shares: i128,
    amount: i128,
)
    requires
        in_order(m),
    ensures
        in_order(with_bet(m, outcome, account, shares, amount)),
        in_order(with_exit(m, outcome, account, shares, amount)),
        in_order(with_liquidity(m, account, amount)),
        in_order(with_reward(m, account, amount)),
        in_order(
            (MarketState { refund_claimed: m.refund_claimed.insert(account, true), ..m }),
        ),
{
}

/// Locking a market, proposing an outcome, as an oracle or as a resolver, and
/// challenging a proposal leave a market in order.
pub proof fn lemma_proposals_keep_order(
    s: ContractState,
    now: u64,
    caller: Address,
    id: u64,
    outcome: u32,
    bond: i128,
)
    requires
        in_order(s.markets[id]),
    ensures
        lock_error(s, caller, id) is None ==> in_order(
            s.markets[id].with_status(MarketStatus::Locked),
        ),
        propose_outcome_error(s, now, caller, id, outcome) is None ==> in_order(
            with_proposed_outcome(s.markets[id], now, outcome),
        ),
        propose_resolution_error(s, caller, id, outcome) is None ==> in_order(
            with_proposed_resolution(s.markets[id], now, outcome),
        ),
        dispute_error(s, id, bond) is None ==> in_order(
            s.markets[id].with_status(MarketStatus::Disputed),
        ),
{
}

/// Making a proposal final, by settling it or as a resolver, leaves a market in
/// order.
pub proof fn lemma_conclusion_keeps_order(
    s: ContractState,
    now: u64,
    resolver: Address,
    id: u64,
    outcome: u32,
)
    requires
        in_order(s.markets[id]),
    ensures
        settle_error(s, now, id) is None ==> in_order(
            concluded(s, now, id, s.markets[id].proposed_outcome_id->0),
        ),
        resolve_error(s, now, resolver, id, outcome) is None ==> in_order(
            concluded(s, now, id, outcome),
        ),
{
}

/// Opening a vote, voting and closing the vote leave a market in order.
pub proof fn lemma_votes_keep_order(
    s: ContractState,
    now: u64,
    id: u64,
    voter: Address,
    support: bool,
    balance: i128,
)
    requires
        in_order(s.markets[id]),
    ensures
        ({
            let m = s.markets[id];
            let closed = DisputeView { active: false, ..m.dispute->0 };
            &&& open_error(s, now, id, balance) is None ==> in_order(
                (MarketState { dispute: Some(fresh_dispute(now)), ..m }),
            )
            &&& vote_error(s, now, id, voter, support, balance) is None ==> in_order(
                after_vote(m, voter, support, balance),
            )
            &&& close_error(s, now, id) is None ==> in_order(
                (MarketState { dispute: Some(closed), ..m }),
            )
        }),
{
}

/// Paying winners, whichever way, and sweeping what they have not claimed leave
/// a market in order.
pub proof fn lemma_payments_keep_order(
    s: ContractState,
    now: u64,
    id: u64,
    batch_size: u32,
    recipients: Seq<Address>,
    account: Address,
)
    requires
        in_order(s.markets[id]),
    ensures
        ({
            let m = s.markets[id];
            &&& batch_error(s, now, id, batch_size) is None ==> in_order(
                after_batch(m, batch_size),
            )
            &&& batch_payout_error(s, id, recipients, account) is None ==> in_order(
                after_payout(m, recipients),
            )
            &&& claim(s, id, account) matches Ok(Some(_)) ==> in_order(after_claim(m, account))
            &&& original_error(s, id, account) is None ==> in_order(
                after_original(s, id, account).markets[id],
            )
            &&& sweep_error(s, now, account, id) is None ==> in_order(swept(m))
        }),
{
}

/// A market in order has no gaps: no settlement fails for want of the outcome
/// that was proposed, no sweep for want of the time of resolution, and a vote is
/// counted from the time of resolution that is on record.
pub proof fn lemma_order_leaves_no_gaps(s: ContractState, now: u64, caller: Address, id: u64)
    requires
        in_order(s.markets[id]),
    ensures
        settle_error(s, now, id) != Some(Error::ProposedOutcomeMissing),
        sweep_error(s, now, caller, id) != Some(Error::ClaimDeadlineMissing),
        was_resolved(s.markets[id]) ==> s.markets[id].claim_deadline == Some(
            resolution_time(s.markets[id]),
        ),
{
}

} // verus!
