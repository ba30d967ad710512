//! What can be looked up without changing anything.
use vstd::prelude::*;

use crate::holdings::{amount_of, flag_of, ordered};
use crate::state::{Market, MarketRecord, MarketState, PredictionMarket};
use crate::types::{Address, DataKey, Entry, Error};

verus! {

/// An entry that is there under a condition.
pub open spec fn entry_if(there: bool, key: DataKey) -> Seq<Entry> {
    if there {
        seq![Entry::Data(key)]
    } else {
        seq![]
    }
}

/// The entries of the holdings of the first `n` outcomes of a market.
pub open spec fn position_entries(id: u64, n: nat) -> Seq<Entry> {
    Seq::new(n, |i: int| Entry::Position(id, i as u32))
}

/// The entries of a market on those who have paid in: what each paid, and
/// whether it was refunded or paid out.
pub open spec fn user_entries(id: u64, m: MarketState, users: Seq<(Address, i128)>) -> Seq<Entry>
    decreases users.len(),
{
    if users.len() == 0 {
        seq![]
    } else {
        let a = users.last().0;
        user_entries(id, m, users.drop_last()) + entry_if(true, DataKey::UserCost(id, a))
            + entry_if(flag_of(m.refund_claimed, a), DataKey::RefundClaimed(id, a)) + entry_if(
            flag_of(m.payout_claimed, a),
            DataKey::PayoutClaimed(id, a),
        )
    }
}

/// The entries of a market on the market as a whole, as far as they are there.
pub open spec fn market_entries(id: u64, m: MarketState) -> Seq<Entry> {
    entry_if(true, DataKey::Market(id)) + entry_if(true, DataKey::OutcomePoolBalances(id))
        + entry_if(m.lp is Some, DataKey::LpContribution(id)) + entry_if(
        m.lp_fee_pool is Some,
        DataKey::LpFeePool(id),
    ) + entry_if(m.dispute is Some, DataKey::Dispute(id)) + entry_if(
        m.claim_deadline is Some,
        DataKey::ClaimDeadline(id),
    ) + entry_if(m.swept, DataKey::OriginalPayouts(id)) + entry_if(
        m.claimed != Map::<Address, bool>::empty(),
        DataKey::Claimed(id),
    ) + entry_if(m.settlement_fee_paid, DataKey::SettlementFeePaid(id)) + entry_if(
        m.proposed_outcome_id is Some,
        DataKey::ProposedOutcomeId(id),
    ) + entry_if(m.unlock_timestamp is Some, DataKey::UnlockTimestamp(id))
}

/// All entries of a market that expire on their own: the market as a whole, the
/// holdings of every outcome, and what is kept of everyone who has paid in.
pub open spec fn living_entries(id: u64, m: MarketState) -> Seq<Entry> {
    market_entries(id, m) + position_entries(id, m.positions.len()) + user_entries(
        id,
        m,
        ordered(m.user_cost),
    )
}

/// List an entry where it is there.
fn list_if(entries: &mut Vec<Entry>, there: bool, key: DataKey)
    ensures
        final(entries)@ == old(entries)@ + entry_if(there, key),
{
    if there {
        entries.push(Entry::Data(key));
    }
    assert(entries@ =~= old(entries)@ + entry_if(there, key));
}

impl MarketRecord {
    /// The entries of a market on the market as a whole.
    fn market_entries(&self, id: u64) -> (res: Vec<Entry>)
        ensures
            res@ == market_entries(id, self@),
    {
        let mut res: Vec<Entry> = Vec::new();
        list_if(&mut res, true, DataKey::Market(id));
        list_if(&mut res, true, DataKey::OutcomePoolBalances(id));
        list_if(&mut res, self.lp.is_some(), DataKey::LpContribution(id));
        list_if(&mut res, self.lp_fee_pool.is_some(), DataKey::LpFeePool(id));
        list_if(&mut res, self.dispute.is_some(), DataKey::Dispute(id));
        list_if(&mut res, self.claim_deadline.is_some(), DataKey::ClaimDeadline(id));
        list_if(&mut res, self.swept, DataKey::OriginalPayouts(id));
        list_if(&mut res, !self.claimed.is_empty(), DataKey::Claimed(id));
        list_if(&mut res, self.settlement_fee_paid, DataKey::SettlementFeePaid(id));
        list_if(&mut res, self.proposed_outcome_id.is_some(), DataKey::ProposedOutcomeId(id));
        list_if(&mut res, self.unlock_timestamp.is_some(), DataKey::UnlockTimestamp(id));
        assert(res@ =~= market_entries(id, self@));
        res
    }

    /// List the entries on those who have paid in.
    fn list_users(&self, id: u64, entries: &mut Vec<Entry>)
        ensures
            final(entries)@ == old(entries)@ + user_entries(id, self@, ordered(self@.user_cost)),
    {
        let ghost before = entries@;
        let users = self.user_cost.entries();
        let mut i: usize = 0;
        assert(users@.take(0) =~= Seq::empty());
        assert(before + user_entries(id, self@, users@.take(0)) =~= before);
        while i < users.len()
            invariant
                i <= users@.len(),
                entries@ == before + user_entries(id, self@, users@.take(i as int)),
            decreases users@.len() - i,
        {
            let a = users[i].0;
            proof {
                assert(users@.take(i + 1).drop_last() =~= users@.take(i as int));
            }
            list_if(entries, true, DataKey::UserCost(id, a));
            list_if(entries, self.refund_claimed.get(a), DataKey::RefundClaimed(id, a));
            list_if(entries, self.payout_claimed.get(a), DataKey::PayoutClaimed(id, a));
            assert(entries@ =~= before + user_entries(id, self@, users@.take(i + 1)));
            i = i + 1;
        }
        assert(users@.take(users@.len() as int) =~= users@);
    }
}

impl PredictionMarket {
    /// Get the current vault balance.
    pub fn get_vault_balance(&self) -> (res: i128)
        ensures
            res == self@.config.vault_balance,
    {
        self.config.vault_balance
    }

    /// Get the claim deadline timestamp for a market: the time of its
    /// resolution, or zero where it is not resolved.
    pub fn get_claim_deadline(&self, market_id: u64) -> (res: u64)
        ensures
            res == (if self@.markets.contains_key(market_id)
                && self@.markets[market_id].claim_deadline is Some {
                self@.markets[market_id].claim_deadline->0
            } else {
                0
            }),
    {
        match self.markets.get(market_id) {
            Some(record) => match record.claim_deadline {
                Some(t) => t,
                None => 0,
            },
            None => 0,
        }
    }

    /// Check if a market has been swept.
    pub fn is_market_swept(&self, market_id: u64) -> (res: bool)
        ensures
            res == (self@.markets.contains_key(market_id) && self@.markets[market_id].swept),
    {
        match self.markets.get(market_id) {
            Some(record) => record.swept,
            None => false,
        }
    }

    /// Get original payout amount for a specific address in a market.
    pub fn get_original_payout(&self, market_id: u64, address: Address) -> (res: i128)
        ensures
            res == (if self@.markets.contains_key(market_id) {
                amount_of(self@.markets[market_id].original_payouts, address)
            } else {
                0
            }),
    {
        match self.markets.get(market_id) {
            Some(record) => record.original_payouts.get(address),
            None => 0,
        }
    }

    /// Check if a recipient has been paid for a specific market.
    pub fn is_payout_claimed(&self, market_id: u64, recipient: Address) -> (res: bool)
        ensures
            res == (self@.markets.contains_key(market_id) && flag_of(
                self@.markets[market_id].payout_claimed,
                recipient,
            )),
    {
        match self.markets.get(market_id) {
            Some(record) => record.payout_claimed.get(recipient),
            None => false,
        }
    }

    /// Returns how many winners of a market have already been paid out. A market
    /// has winners of one outcome only, so the outcome asked for does not matter.
    pub fn get_settlement_payout_count(&self, market_id: u64, _winning_outcome: u32) -> (res: u32)
        ensures
            res == (if self@.markets.contains_key(market_id) {
                self@.markets[market_id].winners_paid
            } else {
                0
            }),
    {
        match self.markets.get(market_id) {
            Some(record) => record.winners_paid,
            None => 0,
        }
    }

    /// Get a market as its creator and its judges describe it.
    pub fn get_market(&self, market_id: u64) -> (res: Result<&Market, Error>)
        ensures
            match res {
                Ok(market) => {
                    &&& self@.markets.contains_key(market_id)
                    &&& market@ == self@.markets[market_id].market
                },
                Err(e) => e == Error::MarketNotFound && !self@.markets.contains_key(market_id),
            },
    {
        match self.markets.get(market_id) {
            Some(record) => Ok(&record.market),
            None => Err(Error::MarketNotFound),
        }
    }

    /// Get total shares for a market.
    pub fn get_total_shares(&self, market_id: u64) -> (res: i128)
        ensures
            res == (if self@.markets.contains_key(market_id) {
                self@.markets[market_id].total_shares
            } else {
                0
            }),
    {
        match self.markets.get(market_id) {
            Some(record) => record.total_shares,
            None => 0,
        }
    }

    /// Get pause state for a market.
    pub fn get_is_paused(&self, market_id: u64) -> (res: bool)
        ensures
            res == self@.is_paused(market_id),
    {
        self.paused.get(market_id)
    }

    /// Bumps the life of all ledger entries related to a specific market, so that
    /// neither its metadata nor its users' positions expire: returns the entries
    /// to extend.
    pub fn bump_market_ttl(&self, market_id: u64) -> (res: Result<Vec<Entry>, Error>)
        requires
            self@.wf(),
        ensures
            match res {
                Ok(entries) => {
                    &&& self@.markets.contains_key(market_id)
                    &&& entries@ == living_entries(market_id, self@.markets[market_id])
                },
                Err(e) => e == Error::MarketNotFound && !self@.markets.contains_key(market_id),
            },
    {
        let record = match self.markets.get(market_id) {
            Some(record) => record,
            None => {
                return Err(Error::MarketNotFound);
            },
        };
        let ghost m = record@;
        let mut entries = record.market_entries(market_id);
        let n: u32 = record.outcome_shares.len();
        let mut i: u32 = 0;
        let ghost before = entries@;
        while i < n
            invariant
                i <= n,
                entries@ =~= before + position_entries(market_id, i as nat),
            decreases n - i,
        {
            entries.push(Entry::Position(market_id, i));
            i = i + 1;
        }
        record.list_users(market_id, &mut entries);
        Ok(entries)
    }

    /// Get the shares that a user holds of an option.
    pub fn get_user_position(&self, market_id: u64, user: Address, option_index: u32) -> (res: i128)
        ensures
            res == (if self@.markets.contains_key(market_id) {
                self@.markets[market_id].position(option_index, user)
            } else {
                0
            }),
    {
        match self.markets.get(market_id) {
            Some(record) => record.position(option_index, user),
            None => 0,
        }
    }

    /// Get the shares outstanding per outcome.
    pub fn get_outcome_shares(&self, market_id: u64) -> (res: Result<Vec<i128>, Error>)
        ensures
            match res {
                Ok(shares) => {
                    &&& self@.markets.contains_key(market_id)
                    &&& shares@ == self@.markets[market_id].outcome_shares
                },
                Err(e) => e == Error::MarketNotFound && !self@.markets.contains_key(market_id),
            },
    {
        match self.markets.get(market_id) {
            Some(record) => Ok(record.outcome_shares.to_vec()),
            None => Err(Error::MarketNotFound),
        }
    }

    /// Get per-outcome pool balances for a multi-outcome market: each outcome
    /// with the total stake in it, in order; none where there is no market.
    pub fn get_outcome_pool_balances(&self, market_id: u64) -> (res: Vec<(u32, i128)>)
        requires
            self@.wf(),
        ensures
            res@ == (if self@.markets.contains_key(market_id) {
                Seq::new(
                    self@.markets[market_id].outcomes(),
                    |i: int| (i as u32, self@.markets[market_id].pool_balances[i as u32]),
                )
            } else {
                Seq::empty()
            }),
    {
        let mut res: Vec<(u32, i128)> = Vec::new();
        if let Some(record) = self.markets.get(market_id) {
            let ghost m = record@;
            let n: u32 = record.outcome_shares.len();
            let mut i: u32 = 0;
            while i < n
                invariant
                    m.wf(),
                    m == record@,
                    n == m.outcomes(),
                    i <= n,
                    res@ =~= Seq::new(i as nat, |j: int| (j as u32, m.pool_balances[j as u32])),
                decreases n - i,
            {
                if let Some(stake) = record.pool_balances.get(i) {
                    res.push((i, stake));
                }
                i = i + 1;
            }
        }
        res
    }

    /// Get pool balance for a specific outcome: the total stake placed on it.
    pub fn get_outcome_pool_balance(&self, market_id: u64, outcome_index: u32) -> (res: i128)
        ensures
            res == (if self@.markets.contains_key(market_id)
                && self@.markets[market_id].pool_balances.contains_key(outcome_index) {
                self@.markets[market_id].pool_balances[outcome_index]
            } else {
                0
            }),
    {
        match self.markets.get(market_id) {
            Some(record) => match record.pool_balances.get(outcome_index) {
                Some(stake) => stake,
                None => 0,
            },
            None => 0,
        }
    }

    /// Get outcome count for a market: the number of possible outcomes (2-8).
    pub fn get_outcome_count(&self, market_id: u64) -> (res: Result<u32, Error>)
        requires
            self@.wf(),
        ensures
            match res {
                Ok(n) => {
                    &&& self@.markets.contains_key(market_id)
                    &&& n == self@.markets[market_id].outcomes()
                    &&& 2 <= n <= 8
                },
                Err(e) => e == Error::MarketNotFound && !self@.markets.contains_key(market_id),
            },
    {
        match self.markets.get(market_id) {
            Some(record) => Ok(record.market.options.len() as u32),
            None => Err(Error::MarketNotFound),
        }
    }
}

} // verus!
