//! Money that waits: unclaimed payouts swept into the vault, and refunds of
//! voided markets.
use vstd::prelude::*;

use crate::access::role_error;
use crate::checked_math::{cadd, cmuldiv, fits, later, moment};
use crate::fees::{checked_dynamic_fee, paid_out};
use crate::holdings::{amount_of, flag_of, lemma_lists_total, ordered, Balances, Flags};
use crate::host::lists;
use crate::market::status_error;
use crate::payouts::{
    among, lemma_listing_picks, lemma_running_total, lemma_sole, lemma_winners, pay_all,
    pay_from_vault, payable, payment_error, payout, payout_pool, payouts, picks, settled, share_of,
    sole, sum_of, vault_after, winners, winning_shares,
};
use crate::state::{ContractState, MarketState, PredictionMarket};
use crate::types::{
    either, Address, Effects, EffectsView, Error, MarketStatus, Role, Transfer, BPS, CLAIM_PERIOD,
};

verus! {

/// The holders of a list who are not flagged.
pub open spec fn unflagged(entries: Seq<(Address, i128)>, flags: Map<Address, bool>) -> Seq<
    (Address, i128),
>
    decreases entries.len(),
{
    if entries.len() == 0 {
        seq![]
    } else {
        let before = unflagged(entries.drop_last(), flags);
        if flag_of(flags, entries.last().0) {
            before
        } else {
            before.push(entries.last())
        }
    }
}

/// What every winner of a market who was not paid is owed: the part of the
/// payout pool that its holding is of all winning shares, whoever was paid
/// before.
pub open spec fn owed(m: MarketState) -> Map<Address, i128> {
    Map::new(
        |a: Address| winners(m).contains_key(a),
        |a: Address| share_of(m, a)->Ok_0,
    )
}

/// What the winners of a market have not claimed.
pub open spec fn unclaimed(m: MarketState) -> int {
    if winners(m).dom().len() == 0 {
        0
    } else {
        paid_out(
            payouts(
                unflagged(ordered(winners(m)), m.claimed),
                m.market.token,
                payout_pool(m.total_shares)->Ok_0,
                winning_shares(m),
            ),
        )
    }
}

/// Refusal of a sweep before it comes to amounts.
pub open spec fn sweep_guard(s: ContractState, now: u64, caller: Address, id: u64) -> Option<
    Error,
> {
    let m = s.markets[id];
    if role_error(s, caller, Role::Resolver) is Some {
        role_error(s, caller, Role::Resolver)
    } else if s.markets.contains_key(id) && m.swept {
        Some(Error::AlreadySwept)
    } else if status_error(s, id, MarketStatus::Resolved, Error::MarketNotResolved) is Some {
        status_error(s, id, MarketStatus::Resolved, Error::MarketNotResolved)
    } else if m.claim_deadline is None {
        Some(Error::ClaimDeadlineMissing)
    } else if moment(m.claim_deadline->0 + CLAIM_PERIOD) is Err {
        Some(Error::Overflow)
    } else if now < m.claim_deadline->0 + CLAIM_PERIOD {
        Some(Error::ClaimPeriodOpen)
    } else {
        None
    }
}

/// Refusal of a sweep because of its amounts.
pub open spec fn sweep_pay_error(s: ContractState, id: u64) -> Option<Error> {
    let m = s.markets[id];
    let pool = payout_pool(m.total_shares);
    if winners(m).dom().len() == 0 {
        None
    } else if pool is Err || !payable(
        ordered(winners(m)),
        pool->Ok_0,
        winning_shares(m),
    ) || !fits(s.config.vault_balance + unclaimed(m)) {
        Some(Error::Overflow)
    } else {
        None
    }
}

/// Refusal of a sweep.
pub open spec fn sweep_error(s: ContractState, now: u64, caller: Address, id: u64) -> Option<
    Error,
> {
    either(sweep_guard(s, now, caller, id), sweep_pay_error(s, id))
}

/// A market after a sweep: what every winner who was not paid is owed is on
/// record.
pub open spec fn swept(m: MarketState) -> MarketState {
    MarketState {
        swept: true,
        original_payouts: if winners(m).dom().len() == 0 {
            m.original_payouts
        } else {
            owed(m)
        },
        ..m
    }
}

/// The contract after a sweep: what was not claimed is in the vault.
pub open spec fn after_sweep(s: ContractState, id: u64) -> ContractState {
    let m = s.markets[id];
    s.with_vault((s.config.vault_balance + unclaimed(m)) as i128).with_market(id, swept(m))
}

/// The holders of a list who are not flagged are holders of the list.
proof fn lemma_unflagged(
    entries: Seq<(Address, i128)>,
    flags: Map<Address, bool>,
    held: Map<Address, i128>,
)
    requires
        picks(entries, held),
    ensures
        picks(unflagged(entries, flags), held),
        forall|i: int|
            0 <= i < unflagged(entries, flags).len() ==> among(
                entries,
                (#[trigger] unflagged(entries, flags)[i]).0,
            ),
    decreases entries.len(),
{
    if entries.len() > 0 {
        let front = entries.drop_last();
        let n = entries.len() as int;
        assert(picks(front, held)) by {
            assert forall|i: int| 0 <= i < front.len() implies held.contains_key(
                (#[trigger] front[i]).0,
            ) && held[front[i].0] == front[i].1 by {
                assert(front[i] == entries[i]);
            }
            assert forall|i: int, j: int| 0 <= i < j < front.len() implies (#[trigger] front[i]).0
                != (#[trigger] front[j]).0 by {
                assert(front[i] == entries[i] && front[j] == entries[j]);
            }
        }
        lemma_unflagged(front, flags, held);
        let before = unflagged(front, flags);
        let after = unflagged(entries, flags);
        let k = before.len() as int;
        assert(entries.last() == entries[n - 1]);
        assert forall|i: int| 0 <= i < after.len() implies held.contains_key(
            (#[trigger] after[i]).0,
        ) && held[after[i].0] == after[i].1 && among(entries, after[i].0) by {
            if i < k {
                assert(after[i] == before[i]);
                let j = choose|j: int|
                    0 <= j < front.len() && (#[trigger] front[j]).0 == before[i].0;
                assert(front[j] == entries[j]);
            } else {
                assert(after[i] == entries[n - 1]);
            }
        }
        assert forall|i: int, j: int| 0 <= i < j < after.len() implies (#[trigger] after[i]).0 != (
        #[trigger] after[j]).0 by {
            assert(after[i] == before[i]);
            if j < k {
                assert(after[j] == before[j]);
            } else {
                let l = choose|l: int|
                    0 <= l < front.len() && (#[trigger] front[l]).0 == before[i].0;
                assert(front[l] == entries[l]);
                assert(entries[l].0 != entries[n - 1].0);
            }
        }
    }
}

/// The holders of a list who are not flagged.
fn without_flagged(entries: &Vec<(Address, i128)>, flags: &Flags) -> (res: Vec<(Address, i128)>)
    ensures
        res@ == unflagged(entries@, flags@),
{
    let mut res: Vec<(Address, i128)> = Vec::new();
    let mut i: usize = 0;
    assert(entries@.take(0) =~= Seq::empty());
    while i < entries.len()
        invariant
            i <= entries@.len(),
            res@ == unflagged(entries@.take(i as int), flags@),
        decreases entries@.len() - i,
    {
        proof {
            assert(entries@.take(i + 1).drop_last() =~= entries@.take(i as int));
        }
        let entry = entries[i];
        if !flags.get(entry.0) {
            res.push(entry);
        }
        i = i + 1;
    }
    assert(entries@.take(entries@.len() as int) =~= entries@);
    res
}

/// Payments on record by recipient.
fn recorded(
    env: &soroban_sdk::Env,
    transfers: &Vec<Transfer>,
    entries: &Vec<(Address, i128)>,
    Ghost(m): Ghost<MarketState>,
) -> (res: Balances)
    requires
        lists(entries@, winners(m)),
        transfers@ == payouts(
            entries@,
            m.market.token,
            payout_pool(m.total_shares)->Ok_0,
            winning_shares(m),
        ),
        payout_pool(m.total_shares) is Ok,
    ensures
        res@ == owed(m),
{
    let mut res = Balances::new(env);
    let mut i: usize = 0;
    while i < entries.len()
        invariant
            i <= entries@.len(),
            lists(entries@, winners(m)),
            transfers@ == payouts(
                entries@,
                m.market.token,
                payout_pool(m.total_shares)->Ok_0,
                winning_shares(m),
            ),
            payout_pool(m.total_shares) is Ok,
            forall|a: Address| #[trigger]
                res@.contains_key(a) <==> exists|j: int|
                    0 <= j < i && (#[trigger] entries@[j]).0 == a,
            forall|a: Address| #[trigger] res@.contains_key(a) ==> res@[a] == owed(m)[a],
        decreases entries@.len() - i,
    {
        let ghost before = res@;
        res.set(entries[i].0, transfers[i].amount);
        proof {
            let e = entries@[i as int];
            assert(winners(m).contains_key(e.0) && winners(m)[e.0] == e.1);
            assert forall|a: Address| #[trigger] res@.contains_key(a) <==> exists|j: int|
                0 <= j < i + 1 && (#[trigger] entries@[j]).0 == a by {
                if before.contains_key(a) {
                    let j = choose|j: int| 0 <= j < i && (#[trigger] entries@[j]).0 == a;
                    assert(0 <= j < i + 1 && entries@[j].0 == a);
                }
                if a == e.0 {
                    assert(0 <= i < i + 1 && entries@[i as int].0 == a);
                }
            }
        }
        i = i + 1;
    }
    assert(res@ =~= owed(m));
    res
}

impl PredictionMarket {
    /// Sweep unclaimed payouts from a resolved market into the vault.
    /// Can only be called 30 days after market resolution, and once.
    ///
    /// What every winner who was not paid is owed is put on record, so that
    /// after the sweep claimants can still withdraw their exact amount with
    /// `claim_original`.
    ///
    /// Returns the amount swept into the vault.
    pub fn sweep_unclaimed(
        &mut self,
        env: &soroban_sdk::Env,
        now: u64,
        caller: Address,
        market_id: u64,
    ) -> (res: Result<i128, Error>)
        requires
            old(self)@.wf(),
        ensures
            final(self)@.wf(),
            ({
                let s = old(self)@;
                match res {
                    Ok(swept) => {
                        &&& sweep_error(s, now, caller, market_id) is None
                        &&& swept == unclaimed(s.markets[market_id])
                        &&& final(self)@ == after_sweep(s, market_id)
                    },
                    Err(e) => {
                        &&& sweep_error(s, now, caller, market_id) == Some(e)
                        &&& final(self)@ == s
                    },
                }
            }),
    {
        self.require_role(caller, Role::Resolver)?;
        let record = match self.markets.get(market_id) {
            None => {
                return Err(Error::MarketNotFound);
            },
            Some(record) => record,
        };
        let ghost m = record@;
        if record.swept {
            return Err(Error::AlreadySwept);
        }
        if record.market.status != MarketStatus::Resolved {
            return Err(Error::MarketNotResolved);
        }
        let resolved: u64 = match record.claim_deadline {
            None => {
                return Err(Error::ClaimDeadlineMissing);
            },
            Some(t) => t,
        };
        if now < later(resolved, CLAIM_PERIOD)? {
            return Err(Error::ClaimPeriodOpen);
        }
        proof {
            lemma_winners(m);
        }
        let entries = record.positions[record.market.winning_outcome as usize].entries();
        proof {
            lemma_lists_total(entries@, winners(m));
        }
        if entries.len() == 0 {
            let mut record = self.take_market(market_id);
            record.swept = true;
            self.put_market(market_id, record);
            assert(self@ =~= after_sweep(old(self)@, market_id));
            return Ok(0);
        }
        let stake: i128 = match record.outcome_shares.get(record.market.winning_outcome) {
            Some(stake) => stake,
            None => 0,
        };
        let bps: u32 = checked_dynamic_fee(record.total_shares)?;
        let pool: i128 = cmuldiv(record.total_shares, BPS - bps as i128, BPS)?;
        let all = pay_all(&entries, record.market.token, pool, stake)?;
        let open = without_flagged(&entries, &record.claimed);
        proof {
            lemma_listing_picks(entries@, winners(m), entries@.len() as int);
            assert(entries@.take(entries@.len() as int) =~= entries@);
            lemma_unflagged(entries@, m.claimed, winners(m));
            assert forall|i: int| 0 <= i < open@.len() implies payout(
                (#[trigger] open@[i]).1,
                pool,
                stake,
            ) is Ok by {
                assert(among(entries@, open@[i].0));
                let j = choose|j: int|
                    0 <= j < entries@.len() && (#[trigger] entries@[j]).0 == open@[i].0;
                assert(entries@[j].1 == open@[i].1);
            }
        }
        let due = pay_all(&open, record.market.token, pool, stake)?;
        proof {
            lemma_running_total(m, open@, m.market.token, pool, stake);
            assert(due@.take(due@.len() as int) =~= due@);
        }
        let swept: i128 = sum_of(&due);
        assert(swept == unclaimed(m));
        let vault_balance: i128 = cadd(self.config.vault_balance, swept)?;
        let original_payouts = recorded(env, &all, &entries, Ghost(m));

        let mut record = self.take_market(market_id);
        record.swept = true;
        record.original_payouts = original_payouts;
        self.put_market(market_id, record);
        self.config.vault_balance = vault_balance;
        assert(self@ =~= after_sweep(old(self)@, market_id));
        Ok(swept)
    }

    /// The vault balance that is there to be invested (SuperAdmin only).
    pub fn invest_vault(&self, caller: Address) -> (res: Result<i128, Error>)
        ensures
            ({
                let error = either(
                    role_error(self@, caller, Role::SuperAdmin),
                    if self@.config.vault_balance <= 0 {
                        Some(Error::VaultEmpty)
                    } else {
                        None
                    },
                );
                match res {
                    Ok(balance) => error is None && balance == self@.config.vault_balance,
                    Err(e) => error == Some(e),
                }
            }),
    {
        self.require_role(caller, Role::SuperAdmin)?;
        if self.config.vault_balance <= 0 {
            return Err(Error::VaultEmpty);
        }
        Ok(self.config.vault_balance)
    }
}

/// The original payout of a claimant: what is on record where the market was
/// swept, and otherwise the part of the payout pool that the claimant's holding
/// is of all winning shares.
pub open spec fn original_payout(m: MarketState, claimant: Address) -> Result<i128, Error> {
    if m.swept {
        if m.original_payouts.contains_key(claimant) {
            Ok(m.original_payouts[claimant])
        } else {
            Err(Error::NoPayout)
        }
    } else if winners(m).contains_key(claimant) {
        share_of(m, claimant)
    } else {
        Err(Error::NoPayout)
    }
}

/// Refusal of a claim on an original payout.
pub open spec fn original_error(s: ContractState, id: u64, claimant: Address) -> Option<Error> {
    let m = s.markets[id];
    if s.config.locked {
        Some(Error::Reentrancy)
    } else if status_error(s, id, MarketStatus::Resolved, Error::MarketNotResolved) is Some {
        status_error(s, id, MarketStatus::Resolved, Error::MarketNotResolved)
    } else {
        match original_payout(m, claimant) {
            Err(e) => Some(e),
            Ok(paid) => if paid <= 0 {
                Some(Error::AlreadyClaimed)
            } else {
                payment_error(s.config.vault_balance, m, 1, paid as int)
            },
        }
    }
}

/// The contract after a claim on an original payout: the claimant is counted as
/// paid and has no position left, and if the market was swept the record is
/// spent and the vault paid for it.
pub open spec fn after_original(s: ContractState, id: u64, claimant: Address) -> ContractState {
    let m = s.markets[id];
    s.with_vault(
        vault_after(s.config.vault_balance, m, original_payout(m, claimant)->Ok_0 as int),
    ).with_market(id, settled(m, sole(m, claimant)))
}

/// Refusal of a refund.
pub open spec fn refund_error(s: ContractState, id: u64, bettor: Address) -> Option<Error> {
    let m = s.markets[id];
    if status_error(s, id, MarketStatus::Voided, Error::MarketNotVoided) is Some {
        status_error(s, id, MarketStatus::Voided, Error::MarketNotVoided)
    } else if flag_of(m.refund_claimed, bettor) {
        Some(Error::AlreadyRefunded)
    } else if amount_of(m.user_cost, bettor) <= 0 {
        Some(Error::NothingToRefund)
    } else {
        None
    }
}

impl PredictionMarket {
    /// Claim original payout amount for a winner, whether or not the market was
    /// swept.
    ///
    /// If the market was not swept, pays the winner's part of the payout pool
    /// from the contract's token balance. If it was swept, pays the exact amount
    /// on record out of the vault. Either way the position is burned and the
    /// record spent, so that the winner cannot be paid again.
    ///
    /// Returns the amount claimed.
    pub fn claim_original(&mut self, market_id: u64, claimant: Address) -> (res: Result<
        (i128, Effects),
        Error,
    >)
        requires
            old(self)@.wf(),
        ensures
            final(self)@.wf(),
            ({
                let s = old(self)@;
                let m = s.markets[market_id];
                match res {
                    Ok((paid, effects)) => {
                        &&& original_error(s, market_id, claimant) is None
                        &&& original_payout(m, claimant) == Ok::<i128, Error>(paid)
                        &&& final(self)@ == after_original(s, market_id, claimant)
                        &&& effects@ == (EffectsView {
                            transfers: seq![Transfer::pay(m.market.token, claimant, paid)],
                            events: seq![],
                        })
                    },
                    Err(e) => {
                        &&& original_error(s, market_id, claimant) == Some(e)
                        &&& final(self)@ == s
                    },
                }
            }),
    {
        if self.config.locked {
            return Err(Error::Reentrancy);
        }
        let record = self.check_status(
            market_id,
            MarketStatus::Resolved,
            Error::MarketNotResolved,
        )?;
        let ghost m = record@;
        let token = record.market.token;
        let winning_outcome: u32 = record.market.winning_outcome;
        let paid: i128 = if record.swept {
            match record.original_payouts.find(claimant) {
                None => {
                    return Err(Error::NoPayout);
                },
                Some(paid) => paid,
            }
        } else {
            let held: i128 = match record.positions[winning_outcome as usize].find(claimant) {
                None => {
                    return Err(Error::NoPayout);
                },
                Some(held) => held,
            };
            let stake: i128 = match record.outcome_shares.get(winning_outcome) {
                Some(stake) => stake,
                None => 0,
            };
            let bps: u32 = checked_dynamic_fee(record.total_shares)?;
            let pool: i128 = cmuldiv(record.total_shares, BPS - bps as i128, BPS)?;
            cmuldiv(held, pool, stake)?
        };
        if paid <= 0 {
            return Err(Error::AlreadyClaimed);
        }
        let vault_balance: i128 = pay_from_vault(self.config.vault_balance, record, 1, paid)?;
        let mut entries: Vec<(Address, i128)> = Vec::new();
        entries.push((claimant, record.position(winning_outcome, claimant)));
        assert(entries@ =~= sole(m, claimant));
        proof {
            lemma_sole(m, claimant);
        }
        let mut record = self.take_market(market_id);
        record.settle_all(&entries);
        self.put_market(market_id, record);
        self.config.vault_balance = vault_balance;
        assert(self@ =~= after_original(old(self)@, market_id, claimant));
        Ok((paid, Effects::transfer(Transfer::pay(token, claimant, paid))))
    }

    /// Refund what a bettor paid into a market that was voided.
    /// Returns the amount refunded.
    pub fn claim_refund(&mut self, market_id: u64, bettor: Address) -> (res: Result<
        (i128, Effects),
        Error,
    >)
        requires
            old(self)@.wf(),
        ensures
            final(self)@.wf(),
            ({
                let s = old(self)@;
                let m = s.markets[market_id];
                match res {
                    Ok((refunded, effects)) => {
                        &&& refund_error(s, market_id, bettor) is None
                        &&& refunded == amount_of(m.user_cost, bettor)
                        &&& final(self)@ == s.with_market(
                            market_id,
                            (MarketState {
                                refund_claimed: m.refund_claimed.insert(bettor, true),
                                ..m
                            }),
                        )
                        &&& effects@ == (EffectsView {
                            transfers: seq![Transfer::pay(m.market.token, bettor, refunded)],
                            events: seq![],
                        })
                    },
                    Err(e) => {
                        &&& refund_error(s, market_id, bettor) == Some(e)
                        &&& final(self)@ == s
                    },
                }
            }),
    {
        let record = self.check_status(market_id, MarketStatus::Voided, Error::MarketNotVoided)?;
        let token = record.market.token;
        if record.refund_claimed.get(bettor) {
            return Err(Error::AlreadyRefunded);
        }
        let refunded: i128 = record.user_cost.get(bettor);
        if refunded <= 0 {
            return Err(Error::NothingToRefund);
        }
        let mut record = self.take_market(market_id);
        record.refund_claimed.set(bettor, true);
        self.put_market(market_id, record);
        Ok((refunded, Effects::transfer(Transfer::pay(token, bettor, refunded))))
    }
}

} // verus!
