//! What a vote on a resolution decides, when it can be opened and closed, and who
//! may vote.
use vstd::prelude::*;

use crate::disputes::{
    after_vote, carried, close_error, fresh_dispute, open_error, vote_error,
};
use crate::holdings::{lemma_total_insert, total};
use crate::market::dispute_error;
use crate::state::{ContractState, DisputeView, MarketState, MarketView};
use crate::types::{Address, Error, MarketStatus};

verus! {

/// A vote that is taken adds the voter's weight to what was cast, and to what was
/// cast in support where it is in support. It puts the market under review
/// exactly where ten times the weight in support then exceeds six times the
/// weight cast; with support of sixty percent or less the status is what it was.
/// Nothing else changes.
pub proof fn lemma_vote_decides(
    s: ContractState,
    now: u64,
    id: u64,
    voter: Address,
    support: bool,
    weight: i128,
)
    requires
        s.wf(),
        vote_error(s, now, id, voter, support, weight) is None,
    ensures
        ({
            let m = s.markets[id];
            let after = after_vote(m, voter, support, weight);
            let for_it: int = if support {
                weight as int
            } else {
                0
            };
            &&& m.dispute matches Some(before)
            &&& after.dispute matches Some(d)
            &&& d.votes == before.votes.insert(voter, weight)
            &&& !before.votes.contains_key(voter)
            &&& d.total_votes == before.total_votes + weight
            &&& d.total_votes == total(d.votes)
            &&& d.support_votes == before.support_votes + for_it
            &&& d.active == before.active
            &&& d.deadline == before.deadline
            &&& 10 * d.support_votes > 6 * d.total_votes ==> after.market.status
                == MarketStatus::ReReview
            &&& 10 * d.support_votes <= 6 * d.total_votes ==> after.market.status
                == m.market.status
            &&& after.market == (MarketView { status: after.market.status, ..m.market })
            &&& after == (MarketState { market: after.market, dispute: after.dispute, ..m })
        }),
{
    let m = s.markets[id];
    assert(m.wf());
    lemma_total_insert(m.dispute->0.votes, voter, weight);
}

/// What a vote decides does not depend on the unit in which weights are counted.
pub proof fn lemma_vote_is_scale_free(small: DisputeView, large: DisputeView, factor: int)
    requires
        factor > 0,
        large.support_votes == factor * small.support_votes,
        large.total_votes == factor * small.total_votes,
    ensures
        carried(large) <==> carried(small),
        carried(small) <==> 10 * small.support_votes > 6 * small.total_votes,
{
    let (a, b) = (small.support_votes as int, small.total_votes as int);
    assert(factor * a * 10 > factor * b * 6 <==> a * 10 > b * 6) by (nonlinear_arith)
        requires
            factor > 0,
    ;
}

/// A vote is taken if and only if there is an active vote on the market that has
/// not run out, the voter has not voted and holds something, and the sums fit.
pub proof fn lemma_vote_is_taken(
    s: ContractState,
    now: u64,
    id: u64,
    voter: Address,
    support: bool,
    weight: i128,
)
    requires
        s.wf(),
    ensures
        ({
            let d = s.markets[id].dispute->0;
            let for_it: int = if support {
                weight as int
            } else {
                0
            };
            let error = vote_error(s, now, id, voter, support, weight);
            &&& error is None <==> {
                &&& s.markets.contains_key(id)
                &&& s.markets[id].dispute is Some
                &&& d.active
                &&& now <= d.deadline
                &&& !d.votes.contains_key(voter)
                &&& weight > 0
                &&& (d.total_votes + weight) * 6 <= i128::MAX
                &&& (d.support_votes + for_it) * 10 <= i128::MAX
            }
            &&& error == Some(Error::DisputeNotActive) ==> !d.active
            &&& error == Some(Error::VotingDeadlinePassed) ==> now > d.deadline
            &&& error == Some(Error::AlreadyVoted) ==> d.votes.contains_key(voter)
            &&& error == Some(Error::NoVotingWeight) ==> weight <= 0
        }),
{
    if s.markets.contains_key(id) && s.markets[id].dispute is Some {
        assert(s.markets[id].wf());
    }
}

/// A vote on a resolution can be opened once, by a holder of the market's token,
/// within a day of the resolution; it is open for a day, with no votes cast.
pub proof fn lemma_vote_is_opened(s: ContractState, now: u64, id: u64, balance: i128)
    requires
        s.markets[id].claim_deadline is Some,
        s.markets[id].claim_deadline->0 <= u64::MAX - 86_400,
        now <= u64::MAX - 86_400,
    ensures
        ({
            let m = s.markets[id];
            let error = open_error(s, now, id, balance);
            &&& error is None <==> {
                &&& s.markets.contains_key(id)
                &&& m.market.status == MarketStatus::Resolved
                &&& now <= m.claim_deadline->0 + 86_400
                &&& balance > 0
                &&& m.dispute is None
            }
            &&& error == Some(Error::DisputeWindowClosed) ==> now > m.claim_deadline->0 + 86_400
            &&& error == Some(Error::NotTokenHolder) ==> balance <= 0
            &&& error == Some(Error::DisputeAlreadyOpened) ==> m.dispute is Some
            &&& fresh_dispute(now).active
            &&& fresh_dispute(now).votes == Map::<Address, i128>::empty()
            &&& fresh_dispute(now).total_votes == 0
            &&& fresh_dispute(now).support_votes == 0
            &&& fresh_dispute(now).deadline == now + 86_400
        }),
{
}

/// A vote can be closed if and only if it is active and has run out.
pub proof fn lemma_vote_is_closed(s: ContractState, now: u64, id: u64)
    ensures
        close_error(s, now, id) is None <==> {
            &&& s.markets.contains_key(id)
            &&& s.markets[id].dispute matches Some(d)
            &&& d.active
            &&& now > d.deadline
        },
        close_error(s, now, id) == Some(Error::VotingInProgress) ==> now
            <= s.markets[id].dispute->0.deadline,
        close_error(s, now, id) == Some(Error::DisputeAlreadyClosed)
            ==> !s.markets[id].dispute->0.active,
{
}

/// A proposal can be challenged if and only if it stands and the bond is
/// positive.
pub proof fn lemma_challenge_is_taken(s: ContractState, id: u64, bond: i128)
    ensures
        dispute_error(s, id, bond) is None <==> {
            &&& bond > 0
            &&& s.markets.contains_key(id)
            &&& s.markets[id].market.status == MarketStatus::Proposed
        },
        dispute_error(s, id, bond) == Some(Error::BondNotPositive) ==> bond <= 0,
{
}

} // verus!
