//! Checks on what was read from the ledger, before it is worked with.
use vstd::prelude::*;

use crate::holdings::{lemma_total_nonnegative, Balances, Counters, Flags};
use crate::host::lists;
use crate::state::{
    backed, staked, Config, ContractState, DisputeData, MarketRecord, Markets, PauseFlags,
    PredictionMarket,
};
use crate::types::{Address, MAX_OUTCOMES};

verus! {

impl Balances {
    /// Whether no amount is under a bound.
    fn at_least(&self, bound: i128) -> (res: bool)
        ensures
            self@.dom().finite(),
            res == (forall|a: Address| #[trigger] self@.contains_key(a) ==> self@[a] >= bound),
    {
        let entries = self.entries();
        let mut i: usize = 0;
        while i < entries.len()
            invariant
                i <= entries@.len(),
                lists(entries@, self@),
                self@.dom().finite(),
                forall|j: int| 0 <= j < i ==> (#[trigger] entries@[j]).1 >= bound,
            decreases entries@.len() - i,
        {
            if entries[i].1 < bound {
                assert(self@.contains_key(entries@[i as int].0));
                return false;
            }
            i = i + 1;
        }
        assert forall|a: Address| #[trigger] self@.contains_key(a) implies self@[a] >= bound by {
            let j = choose|j: int| 0 <= j < entries@.len() && (#[trigger] entries@[j]).0 == a;
            assert(entries@[j].1 >= bound);
        }
        true
    }

    /// Whether all amounts are positive and do not exceed the shares
    /// outstanding.
    fn is_backed(&self, shares: i128) -> (res: bool)
        ensures
            res == backed(self@, shares),
    {
        if !self.at_least(1) {
            return false;
        }
        match self.sum() {
            Ok(sum) => sum <= shares,
            Err(_) => {
                proof {
                    lemma_total_nonnegative(self@);
                }
                false
            },
        }
    }
}

impl DisputeData {
    /// Whether the tallies are those of the votes cast.
    fn is_sound(&self) -> (res: bool)
        ensures
            res == self@.wf(),
    {
        if !self.votes.at_least(1) {
            return false;
        }
        match self.votes.sum() {
            Ok(sum) => self.total_votes == sum && 0 <= self.support_votes && self.support_votes
                <= self.total_votes,
            Err(_) => {
                proof {
                    lemma_total_nonnegative(self.votes@);
                }
                false
            },
        }
    }
}

impl Config {
    /// Whether the settings are sound.
    pub fn is_sound(&self) -> (res: bool)
        ensures
            res == self.wf(),
    {
        self.creation_fee >= 0 && 1 <= self.min_bet && self.min_bet <= self.max_bet
            && self.fee_split.treasury_bps as u64 + self.fee_split.lp_bps as u64
            + self.fee_split.burn_bps as u64 == 10_000
    }
}

impl MarketRecord {
    /// Whether what is on record of every outcome is sound.
    fn outcomes_are_sound(&self) -> (res: bool)
        requires
            self@.outcome_shares.len() == self@.outcomes(),
            self@.positions.len() == self@.outcomes(),
            self@.outcomes() <= MAX_OUTCOMES,
        ensures
            res == ({
                let m = self@;
                &&& forall|i: int|
                    0 <= i < m.outcomes() ==> backed(
                        #[trigger] m.positions[i],
                        #[trigger] m.outcome_shares[i],
                    )
                &&& forall|i: int| 0 <= i < m.outcomes() ==> #[trigger] m.outcome_shares[i] >= 0
                &&& staked(m.pool_balances, m.outcome_shares)
            }),
    {
        let n: u32 = self.outcome_shares.len();
        let ghost m = self@;
        let mut i: u32 = 0;
        while i < n
            invariant
                i <= n,
                m == self@,
                n == m.outcomes(),
                m.outcome_shares.len() == m.outcomes(),
                m.positions.len() == m.outcomes(),
                forall|j: int|
                    0 <= j < i ==> backed(
                        #[trigger] m.positions[j],
                        #[trigger] m.outcome_shares[j],
                    ),
                forall|j: int| 0 <= j < i ==> #[trigger] m.outcome_shares[j] >= 0,
                forall|j: u32|
                    j < i ==> #[trigger] m.pool_balances.contains_key(j) && m.pool_balances[j]
                        == m.outcome_shares[j as int],
            decreases n - i,
        {
            let shares: i128 = match self.outcome_shares.get(i) {
                Some(shares) => shares,
                None => 0,
            };
            let held = &self.positions[i as usize];
            assert(held@ == m.positions[i as int]);
            if !held.is_backed(shares) || shares < 0 {
                return false;
            }
            match self.pool_balances.get(i) {
                Some(stake) => {
                    if stake != shares {
                        return false;
                    }
                },
                None => {
                    return false;
                },
            }
            i = i + 1;
        }
        true
    }

    /// Whether the record of a market is sound.
    pub fn is_sound(&self) -> (res: bool)
        ensures
            res == self@.wf(),
    {
        let n: usize = self.market.options.len();
        if n < 2 || n > MAX_OUTCOMES as usize {
            return false;
        }
        if self.outcome_shares.len() as usize != n || self.positions.len() != n {
            return false;
        }
        if self.lmsr_b <= 0 || self.market.winning_outcome as usize >= n {
            return false;
        }
        if let Some(p) = self.proposed_outcome_id {
            if p as usize >= n {
                return false;
            }
        }
        if let Some(lp) = &self.lp {
            if !lp.at_least(0) {
                return false;
            }
        }
        if let Some(dispute) = &self.dispute {
            if !dispute.is_sound() {
                return false;
            }
        }
        self.outcomes_are_sound()
    }
}

impl PredictionMarket {
    /// The contract with settings and flags that were read from the ledger, and
    /// no markets yet, where the settings are sound.
    pub fn restore(
        config: Config,
        whitelist: Flags,
        nonces: Counters,
        paused: PauseFlags,
    ) -> (res: Option<PredictionMarket>)
        ensures
            match res {
                Some(contract) => {
                    &&& config.wf()
                    &&& contract@.wf()
                    &&& contract@ == (ContractState {
                        config,
                        whitelist: whitelist@,
                        nonces: nonces@,
                        paused: paused@,
                        markets: Map::empty(),
                    })
                },
                None => !config.wf(),
            },
    {
        if config.is_sound() {
            Some(PredictionMarket { config, whitelist, nonces, paused, markets: Markets::new() })
        } else {
            None
        }
    }

    /// Take in a market that was read from the ledger, where it is sound.
    pub fn take_in(&mut self, record: MarketRecord) -> (res: bool)
        requires
            old(self)@.wf(),
        ensures
            final(self)@.wf(),
            res == record@.wf(),
            final(self)@ == (if res {
                old(self)@.with_market(record@.market.id, record@)
            } else {
                old(self)@
            }),
    {
        if record.is_sound() {
            let id: u64 = record.market.id;
            self.put_market(id, record);
            true
        } else {
            false
        }
    }
}

} // verus!
