//! Votes of token holders on whether a resolution should be reviewed.
use vstd::prelude::*;

use crate::checked_math::{cadd, cmul, fits, later, moment};
use crate::holdings::{lemma_total_empty, lemma_total_insert, Balances};
use crate::market::status_error;
use crate::state::{
    ContractState, DisputeData, DisputeView, MarketState, MarketView, PredictionMarket,
};
use crate::types::{Address, Effects, EffectsView, Error, Event, MarketStatus, DISPUTE_WINDOW};

verus! {

/// Time of resolution, from which claims and disputes are counted.
pub open spec fn resolution_time(m: MarketState) -> u64 {
    match m.claim_deadline {
        Some(t) => t,
        None => 0,
    }
}

/// Refusal to open a dispute. `balance` is what the caller holds of the
/// market's token.
pub open spec fn open_error(s: ContractState, now: u64, id: u64, balance: i128) -> Option<Error> {
    let m = s.markets[id];
    if status_error(s, id, MarketStatus::Resolved, Error::NotResolvedForDispute) is Some {
        status_error(s, id, MarketStatus::Resolved, Error::NotResolvedForDispute)
    } else if moment(resolution_time(m) + DISPUTE_WINDOW) is Err {
        Some(Error::Overflow)
    } else if now > resolution_time(m) + DISPUTE_WINDOW {
        Some(Error::DisputeWindowClosed)
    } else if balance <= 0 {
        Some(Error::NotTokenHolder)
    } else if m.dispute is Some {
        Some(Error::DisputeAlreadyOpened)
    } else {
        moment(now + DISPUTE_WINDOW).err()
    }
}

/// A vote that has just been opened.
pub open spec fn fresh_dispute(now: u64) -> DisputeView {
    DisputeView {
        active: true,
        votes: Map::empty(),
        total_votes: 0,
        support_votes: 0,
        deadline: (now + DISPUTE_WINDOW) as u64,
    }
}

/// A dispute with one more vote.
pub open spec fn with_vote(
    d: DisputeView,
    voter: Address,
    support: bool,
    weight: i128,
) -> DisputeView {
    DisputeView {
        votes: d.votes.insert(voter, weight),
        total_votes: (d.total_votes + weight) as i128,
        support_votes: if support {
            (d.support_votes + weight) as i128
        } else {
            d.support_votes
        },
        ..d
    }
}

/// More than 60% of the weight cast is in support.
pub open spec fn carried(d: DisputeView) -> bool {
    d.support_votes * 10 > d.total_votes * 6
}

/// Refusal of a vote. `weight` is what the voter holds of the market's token.
pub open spec fn vote_error(
    s: ContractState,
    now: u64,
    id: u64,
    voter: Address,
    support: bool,
    weight: i128,
) -> Option<Error> {
    let m = s.markets[id];
    let d = m.dispute->0;
    let after = with_vote(d, voter, support, weight);
    if !s.markets.contains_key(id) {
        Some(Error::MarketNotFound)
    } else if m.dispute is None {
        Some(Error::DisputeNotFound)
    } else if !d.active {
        Some(Error::DisputeNotActive)
    } else if now > d.deadline {
        Some(Error::VotingDeadlinePassed)
    } else if d.votes.contains_key(voter) {
        Some(Error::AlreadyVoted)
    } else if weight <= 0 {
        Some(Error::NoVotingWeight)
    } else if !fits(d.total_votes + weight) || !fits(after.support_votes * 10) || !fits(
        after.total_votes * 6,
    ) {
        Some(Error::Overflow)
    } else {
        None
    }
}

/// A market with one more vote: once the vote carries, the market goes to
/// review.
pub open spec fn after_vote(
    m: MarketState,
    voter: Address,
    support: bool,
    weight: i128,
) -> MarketState {
    let d = with_vote(m.dispute->0, voter, support, weight);
    MarketState {
        market: MarketView {
            status: if carried(d) {
                MarketStatus::ReReview
            } else {
                m.market.status
            },
            ..m.market
        },
        dispute: Some(d),
        ..m
    }
}

/// Refusal to close a dispute.
pub open spec fn close_error(s: ContractState, now: u64, id: u64) -> Option<Error> {
    let m = s.markets[id];
    if !s.markets.contains_key(id) || m.dispute is None {
        Some(Error::DisputeNotFound)
    } else if !m.dispute->0.active {
        Some(Error::DisputeAlreadyClosed)
    } else if now <= m.dispute->0.deadline {
        Some(Error::VotingInProgress)
    } else {
        None
    }
}

impl PredictionMarket {
    /// Opens a dispute voting window for 24 hours. Callable by any token holder
    /// within 24h of resolution.
    pub fn open_dispute(
        &mut self,
        env: &soroban_sdk::Env,
        now: u64,
        market_id: u64,
        caller: Address,
        balance: i128,
    ) -> (res: Result<Effects, Error>)
        requires
            old(self)@.wf(),
        ensures
            final(self)@.wf(),
            match res {
                Ok(effects) => {
                    &&& open_error(old(self)@, now, market_id, balance) is None
                    &&& final(self)@ == old(self)@.with_market(
                        market_id,
                        (MarketState {
                            dispute: Some(fresh_dispute(now)),
                            ..old(self)@.markets[market_id]
                        }),
                    )
                    &&& effects@ == (EffectsView {
                        transfers: seq![],
                        events: seq![Event::DisputeOpened { market_id, caller }],
                    })
                },
                Err(e) => {
                    &&& open_error(old(self)@, now, market_id, balance) == Some(e)
                    &&& final(self)@ == old(self)@
                },
            },
    {
        let record = self.check_status(
            market_id,
            MarketStatus::Resolved,
            Error::NotResolvedForDispute,
        )?;
        let ghost m = record@;
        let resolved: u64 = match record.claim_deadline {
            Some(t) => t,
            None => 0,
        };
        if now > later(resolved, DISPUTE_WINDOW)? {
            return Err(Error::DisputeWindowClosed);
        }
        if balance <= 0 {
            return Err(Error::NotTokenHolder);
        }
        if record.dispute.is_some() {
            return Err(Error::DisputeAlreadyOpened);
        }
        let deadline: u64 = later(now, DISPUTE_WINDOW)?;
        let mut record = self.take_market(market_id);
        record.dispute = Some(
            DisputeData {
                active: true,
                votes: Balances::new(env),
                total_votes: 0,
                support_votes: 0,
                deadline,
            },
        );
        proof {
            lemma_total_empty();
        }
        assert(record@ =~= MarketState { dispute: Some(fresh_dispute(now)), ..m });
        self.put_market(market_id, record);
        Ok(Effects::event(Event::DisputeOpened { market_id, caller }))
    }

    /// Cast a weighted vote in an active dispute; the weight is the voter's
    /// balance of the market's token.
    pub fn cast_vote(
        &mut self,
        now: u64,
        market_id: u64,
        voter: Address,
        support: bool,
        balance: i128,
    ) -> (res: Result<(), Error>)
        requires
            old(self)@.wf(),
        ensures
            final(self)@.wf(),
            match res {
                Ok(_) => {
                    &&& vote_error(old(self)@, now, market_id, voter, support, balance) is None
                    &&& final(self)@ == old(self)@.with_market(
                        market_id,
                        after_vote(old(self)@.markets[market_id], voter, support, balance),
                    )
                },
                Err(e) => {
                    &&& vote_error(old(self)@, now, market_id, voter, support, balance) == Some(e)
                    &&& final(self)@ == old(self)@
                },
            },
    {
        let (total_votes, support_votes) = match self.markets.get(market_id) {
            None => {
                return Err(Error::MarketNotFound);
            },
            Some(record) => match &record.dispute {
                None => {
                    return Err(Error::DisputeNotFound);
                },
                Some(dispute) => {
                    if !dispute.active {
                        return Err(Error::DisputeNotActive);
                    }
                    if now > dispute.deadline {
                        return Err(Error::VotingDeadlinePassed);
                    }
                    if dispute.votes.find(voter).is_some() {
                        return Err(Error::AlreadyVoted);
                    }
                    if balance <= 0 {
                        return Err(Error::NoVotingWeight);
                    }
                    let total_votes: i128 = cadd(dispute.total_votes, balance)?;
                    let support_votes: i128 = if support {
                        cadd(dispute.support_votes, balance)?
                    } else {
                        dispute.support_votes
                    };
                    (total_votes, support_votes)
                },
            },
        };
        let carries = cmul(support_votes, 10)? > cmul(total_votes, 6)?;
        let ghost m = self@.markets[market_id];
        let mut record = self.take_market(market_id);
        let mut dispute = match record.dispute {
            Some(dispute) => dispute,
            None => {
                return Err(Error::DisputeNotFound);
            },
        };
        proof {
            lemma_total_insert(dispute.votes@, voter, balance);
        }
        dispute.votes.set(voter, balance);
        dispute.total_votes = total_votes;
        dispute.support_votes = support_votes;
        record.dispute = Some(dispute);
        if carries {
            record.market.status = MarketStatus::ReReview;
        }
        assert(record@ =~= after_vote(m, voter, support, balance));
        self.put_market(market_id, record);
        Ok(())
    }

    /// Closes an active dispute after the deadline.
    pub fn close_dispute(&mut self, now: u64, market_id: u64) -> (res: Result<(), Error>)
        requires
            old(self)@.wf(),
        ensures
            final(self)@.wf(),
            match res {
                Ok(_) => {
                    let m = old(self)@.markets[market_id];
                    &&& close_error(old(self)@, now, market_id) is None
                    &&& final(self)@ == old(self)@.with_market(
                        market_id,
                        (MarketState {
                            dispute: Some(DisputeView { active: false, ..m.dispute->0 }),
                            ..m
                        }),
                    )
                },
                Err(e) => {
                    &&& close_error(old(self)@, now, market_id) == Some(e)
                    &&& final(self)@ == old(self)@
                },
            },
    {
        match self.markets.get(market_id) {
            None => {
                return Err(Error::DisputeNotFound);
            },
            Some(record) => match &record.dispute {
                None => {
                    return Err(Error::DisputeNotFound);
                },
                Some(dispute) => {
                    if !dispute.active {
                        return Err(Error::DisputeAlreadyClosed);
                    }
                    if now <= dispute.deadline {
                        return Err(Error::VotingInProgress);
                    }
                },
            },
        }
        let ghost m = self@.markets[market_id];
        let mut record = self.take_market(market_id);
        let mut dispute = match record.dispute {
            Some(dispute) => dispute,
            None => {
                return Err(Error::DisputeNotFound);
            },
        };
        dispute.active = false;
        record.dispute = Some(dispute);
        assert(record@ =~= MarketState {
            dispute: Some(DisputeView { active: false, ..m.dispute->0 }),
            ..m
        });
        self.put_market(market_id, record);
        Ok(())
    }
}

} // verus!
