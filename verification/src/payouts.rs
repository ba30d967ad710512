//! Paying winners: in batches, to a list of recipients, or to one claimant
//! across several markets.
use vstd::prelude::*;

use crate::access::role_error;
use crate::checked_math::{cmuldiv, csub, fits, quotient, scaled};
use crate::fees::{checked_dynamic_fee, fee_rate, fee_split, paid_out};
use crate::holdings::{
    amount_of, entries_total, flag_of, lemma_entries_prefix, lemma_lists_total,
    lemma_total_nonnegative, lemma_total_remove, ordered, total,
};
use crate::host::lists;
use crate::market::status_error;
use crate::state::{backed, ContractState, MarketRecord, MarketState, PredictionMarket};
use crate::types::{
    either, Address, Effects, EffectsView, Error, Event, MarketStatus, Role, Transfer, BPS,
    MAX_BATCH_SIZE, MAX_PAYOUT_RECIPIENTS,
};

verus! {

/// The platform's fee on a pool.
pub open spec fn settlement_fee(pool: i128) -> Result<i128, Error> {
    match fee_rate(pool) {
        Err(e) => Err(e),
        Ok(bps) => scaled(pool as int, bps as int, BPS as int),
    }
}

/// What is left of a pool for the winners once the fee is off.
pub open spec fn payout_pool(pool: i128) -> Result<i128, Error> {
    match fee_rate(pool) {
        Err(e) => Err(e),
        Ok(bps) => scaled(pool as int, BPS - bps, BPS as int),
    }
}

/// The part of a payout pool that a holding is of the winning stake, rounded
/// toward zero.
pub open spec fn payout(held: i128, pool: i128, stake: i128) -> Result<i128, Error> {
    scaled(held as int, pool as int, stake as int)
}

/// Every holding of a list can be paid out.
pub open spec fn payable(entries: Seq<(Address, i128)>, pool: i128, stake: i128) -> bool {
    forall|i: int| 0 <= i < entries.len() ==> payout((#[trigger] entries[i]).1, pool, stake) is Ok
}

/// The payments to a list of holders.
pub open spec fn payouts(
    entries: Seq<(Address, i128)>,
    token: Address,
    pool: i128,
    stake: i128,
) -> Seq<Transfer> {
    Seq::new(
        entries.len(),
        |i: int| Transfer::pay(token, entries[i].0, payout(entries[i].1, pool, stake)->Ok_0),
    )
}

/// Holdings without those of a list of holders.
pub open spec fn taken_out(held: Map<Address, i128>, entries: Seq<(Address, i128)>) -> Map<
    Address,
    i128,
>
    decreases entries.len(),
{
    if entries.len() == 0 {
        held
    } else {
        taken_out(held, entries.drop_last()).remove(entries.last().0)
    }
}

/// Holders of a list, each once and with what it holds.
pub open spec fn picks(entries: Seq<(Address, i128)>, held: Map<Address, i128>) -> bool {
    &&& forall|i: int|
        0 <= i < entries.len() ==> held.contains_key((#[trigger] entries[i]).0)
            && held[entries[i].0] == entries[i].1
    &&& forall|i: int, j: int|
        0 <= i < j < entries.len() ==> (#[trigger] entries[i]).0 != (#[trigger] entries[j]).0
}

/// Taking holders out leaves the others as they were, and takes what they held
/// out of the sum.
pub proof fn lemma_taken_out(held: Map<Address, i128>, entries: Seq<(Address, i128)>)
    requires
        held.dom().finite(),
        picks(entries, held),
    ensures
        ({
            let rest = taken_out(held, entries);
            &&& rest.dom().finite()
            &&& rest.submap_of(held)
            &&& total(rest) == total(held) - entries_total(entries)
            &&& forall|a: Address| #[trigger]
                rest.contains_key(a) <==> held.contains_key(a) && forall|i: int|
                    0 <= i < entries.len() ==> (#[trigger] entries[i]).0 != a
        }),
    decreases entries.len(),
{
    if entries.len() > 0 {
        let front = entries.drop_last();
        let last = entries.last();
        let n = entries.len() as int;
        assert(last == entries[n - 1]);
        assert(picks(front, held)) by {
            assert forall|i: int| 0 <= i < front.len() implies held.contains_key(
                (#[trigger] front[i]).0,
            ) && held[front[i].0] == front[i].1 by {
                assert(front[i] == entries[i]);
            }
            assert forall|i: int, j: int| 0 <= i < j < front.len() implies (#[trigger] front[i]).0
                != (#[trigger] front[j]).0 by {
                assert(front[i] == entries[i] && front[j] == entries[j]);
            }
        }
        lemma_taken_out(held, front);
        let rest = taken_out(held, front);
        assert(rest.contains_key(last.0)) by {
            assert forall|i: int| 0 <= i < front.len() implies (#[trigger] front[i]).0
                != last.0 by {
                assert(front[i] == entries[i]);
            }
        }
        lemma_total_remove(rest, last.0);
        let after = taken_out(held, entries);
        assert forall|a: Address| #[trigger] after.contains_key(a) <==> held.contains_key(a)
            && forall|i: int| 0 <= i < entries.len() ==> (#[trigger] entries[i]).0 != a by {
            if after.contains_key(a) {
                assert(rest.contains_key(a) && a != last.0);
                assert forall|i: int| 0 <= i < entries.len() implies (#[trigger] entries[i]).0
                    != a by {
                    if i < n - 1 {
                        assert(front[i] == entries[i]);
                    }
                }
            }
            if held.contains_key(a) && forall|i: int|
                0 <= i < entries.len() ==> (#[trigger] entries[i]).0 != a {
                assert(entries[n - 1].0 != a);
                assert forall|i: int| 0 <= i < front.len() implies (#[trigger] front[i]).0 != a by {
                    assert(front[i] == entries[i]);
                }
                assert(rest.contains_key(a));
            }
        }
    }
}

/// A quotient of numbers of one sign, times the divisor, lies between zero and
/// the number divided.
proof fn lemma_quotient_between(x: int, d: int)
    requires
        d > 0,
    ensures
        x >= 0 ==> 0 <= quotient(x, d) * d <= x,
        x <= 0 ==> x <= quotient(x, d) * d <= 0,
{
    let y = if x >= 0 { x } else { -x };
    assert(0 <= (y / d) * d <= y) by (nonlinear_arith)
        requires
            y >= 0,
            d > 0,
    ;
    assert(-(y / d) * d == -((y / d) * d)) by (nonlinear_arith);
}

/// What a list of holders is paid, in proportion to what they hold of the
/// stake, lies between nothing and their part of the pool.
pub proof fn lemma_payouts_bounded(
    entries: Seq<(Address, i128)>,
    token: Address,
    pool: i128,
    stake: i128,
)
    requires
        stake > 0,
        forall|i: int| 0 <= i < entries.len() ==> (#[trigger] entries[i]).1 >= 0,
        payable(entries, pool, stake),
    ensures
        pool >= 0 ==> 0 <= paid_out(payouts(entries, token, pool, stake)) * stake <= pool
            * entries_total(entries),
        pool <= 0 ==> pool * entries_total(entries) <= paid_out(
            payouts(entries, token, pool, stake),
        ) * stake <= 0,
    decreases entries.len(),
{
    let all = payouts(entries, token, pool, stake);
    if entries.len() > 0 {
        let front = entries.drop_last();
        let last = entries.last();
        assert(last == entries[entries.len() - 1]);
        assert(payout(entries[entries.len() - 1].1, pool, stake) is Ok);
        assert forall|i: int| 0 <= i < front.len() implies (#[trigger] front[i]).1 >= 0 && payout(
            front[i].1,
            pool,
            stake,
        ) is Ok by {
            assert(front[i] == entries[i]);
        }
        lemma_payouts_bounded(front, token, pool, stake);
        assert(all.drop_last() =~= payouts(front, token, pool, stake));
        let before = paid_out(payouts(front, token, pool, stake));
        let share = last.1 as int;
        let product = share * pool;
        let p = quotient(product, stake as int);
        assert(all.last().amount == p);
        lemma_quotient_between(product, stake as int);
        assert(pool >= 0 ==> product >= 0) by (nonlinear_arith)
            requires
                product == share * pool,
                share >= 0,
        ;
        assert(pool <= 0 ==> product <= 0) by (nonlinear_arith)
            requires
                product == share * pool,
                share >= 0,
        ;
        assert((before + p) * stake == before * stake + p * stake) by (nonlinear_arith);
        assert(pool * (entries_total(front) + share) == pool * entries_total(front) + share * pool)
            by (nonlinear_arith);
    } else {
        assert(pool * 0 == 0) by (nonlinear_arith);
        assert(0 * stake == 0) by (nonlinear_arith);
    }
}

/// What is paid to holders of no more than the whole stake fits in the pool.
pub proof fn lemma_payouts_fit(
    entries: Seq<(Address, i128)>,
    token: Address,
    pool: i128,
    stake: i128,
)
    requires
        stake > 0,
        forall|i: int| 0 <= i < entries.len() ==> (#[trigger] entries[i]).1 >= 0,
        entries_total(entries) <= stake,
        payable(entries, pool, stake),
    ensures
        pool >= 0 ==> 0 <= paid_out(payouts(entries, token, pool, stake)) <= pool,
        pool <= 0 ==> pool <= paid_out(payouts(entries, token, pool, stake)) <= 0,
{
    lemma_payouts_bounded(entries, token, pool, stake);
    lemma_entries_prefix(entries, entries.len() as int);
    assert(entries.take(entries.len() as int) =~= entries);
    let sum = paid_out(payouts(entries, token, pool, stake));
    let part = entries_total(entries);
    if pool >= 0 {
        assert(0 <= sum <= pool) by (nonlinear_arith)
            requires
                0 <= sum * stake <= pool * part,
                0 <= part <= stake,
                stake > 0,
                pool >= 0,
        ;
    }
    if pool <= 0 {
        assert(pool <= sum <= 0) by (nonlinear_arith)
            requires
                pool * part <= sum * stake <= 0,
                0 <= part <= stake,
                stake > 0,
                pool <= 0,
        ;
    }
}

/// The winning holdings of a market.
pub open spec fn winners(m: MarketState) -> Map<Address, i128> {
    m.positions[m.market.winning_outcome as int]
}

/// The winning shares of a market, whoever held them.
pub open spec fn winning_shares(m: MarketState) -> i128 {
    m.outcome_shares[m.market.winning_outcome as int]
}

/// The winning holdings of a sound market.
pub proof fn lemma_winners(m: MarketState)
    requires
        m.wf(),
    ensures
        backed(winners(m), winning_shares(m)),
        0 <= total(winners(m)) <= winning_shares(m),
        winners(m).dom().len() > 0 ==> total(winners(m)) > 0,
        forall|a: Address| #[trigger]
            winners(m).contains_key(a) ==> 0 < winners(m)[a] <= total(winners(m)),
{
    let held = winners(m);
    assert(backed(m.positions[m.market.winning_outcome as int], winning_shares(m)));
    lemma_total_nonnegative(held);
    if held.dom().len() > 0 {
        let a = held.dom().choose();
        assert(held.contains_key(a));
    }
}

/// What is on record for winners, with that of some of them spent.
pub open spec fn spent(record: Map<Address, i128>, entries: Seq<(Address, i128)>) -> Map<
    Address,
    i128,
>
    decreases entries.len(),
{
    if entries.len() == 0 {
        record
    } else {
        spent(record, entries.drop_last()).insert(entries.last().0, 0)
    }
}

/// A market after some winners have been paid: they are counted, their
/// positions are burned, and if the market was swept what is on record for them
/// is spent.
pub open spec fn settled(m: MarketState, entries: Seq<(Address, i128)>) -> MarketState {
    MarketState {
        winners_paid: (m.winners_paid + entries.len()) as u32,
        original_payouts: if m.swept {
            spent(m.original_payouts, entries)
        } else {
            m.original_payouts
        },
        ..m.with_position(m.market.winning_outcome, taken_out(winners(m), entries))
    }
}

/// Refusal of payments to a number of winners of a market, because they cannot
/// be counted or because the market was swept and the vault does not hold
/// enough.
pub open spec fn payment_error(vault: i128, m: MarketState, count: nat, paid: int) -> Option<
    Error,
> {
    if m.winners_paid + count > u32::MAX {
        Some(Error::Overflow)
    } else if m.swept && vault < paid {
        Some(Error::InsufficientVault)
    } else if m.swept && !fits(vault - paid) {
        Some(Error::Overflow)
    } else {
        None
    }
}

/// What the vault holds after payments to winners of a market: if it was swept,
/// the vault paid.
pub open spec fn vault_after(vault: i128, m: MarketState, paid: int) -> i128 {
    if m.swept {
        (vault - paid) as i128
    } else {
        vault
    }
}

/// One winner, with what it holds.
pub open spec fn sole(m: MarketState, winner: Address) -> Seq<(Address, i128)> {
    seq![(winner, amount_of(winners(m), winner))]
}

/// Paying one winner burns that winner's position and spends that winner's
/// record.
pub proof fn lemma_sole(m: MarketState, winner: Address)
    requires
        m.wf(),
    ensures
        settled(m, sole(m, winner)).wf(),
        taken_out(winners(m), sole(m, winner)) == winners(m).remove(winner),
        spent(m.original_payouts, sole(m, winner)) == m.original_payouts.insert(winner, 0),
        winners(settled(m, sole(m, winner))) == winners(m).remove(winner),
        winners(m).contains_key(winner) ==> picks(sole(m, winner), winners(m)),
{
    let entries = sole(m, winner);
    assert(entries.drop_last() =~= Seq::empty());
    reveal_with_fuel(taken_out, 2);
    reveal_with_fuel(spent, 2);
    if winners(m).contains_key(winner) {
        assert(picks(entries, winners(m)));
        lemma_settled(m, entries);
    } else {
        let w = m.market.winning_outcome as int;
        assert(winners(m).remove(winner) =~= winners(m));
        assert(m.positions.update(w, winners(m)) =~= m.positions);
    }
}

/// A market stays sound when winners are paid.
pub proof fn lemma_settled(m: MarketState, entries: Seq<(Address, i128)>)
    requires
        m.wf(),
        picks(entries, winners(m)),
    ensures
        settled(m, entries).wf(),
{
    let w = m.market.winning_outcome as int;
    let held = winners(m);
    let n = settled(m, entries);
    lemma_winners(m);
    lemma_taken_out(held, entries);
    assert forall|i: int| 0 <= i < entries.len() implies (#[trigger] entries[i]).1 >= 0 by {
        assert(held.contains_key(entries[i].0));
    }
    lemma_entries_prefix(entries, 0);
    assert(entries.take(0) =~= Seq::empty());
    assert forall|i: int| 0 <= i < n.outcomes() implies backed(
        #[trigger] n.positions[i],
        #[trigger] n.outcome_shares[i],
    ) by {
        assert(backed(m.positions[i], m.outcome_shares[i]));
    }
}

/// The first entries of a listing pick holders.
pub proof fn lemma_listing_picks(
    entries: Seq<(Address, i128)>,
    held: Map<Address, i128>,
    n: int,
)
    requires
        lists(entries, held),
        0 <= n <= entries.len(),
    ensures
        picks(entries.take(n), held),
{
    let e = entries.take(n);
    assert forall|i: int| 0 <= i < e.len() implies held.contains_key((#[trigger] e[i]).0)
        && held[e[i].0] == e[i].1 by {
        assert(e[i] == entries[i]);
    }
    assert forall|i: int, j: int| 0 <= i < j < e.len() implies (#[trigger] e[i]).0 != (
    #[trigger] e[j]).0 by {
        assert(e[i] == entries[i] && e[j] == entries[j]);
        assert(entries[i].0.precedes(entries[j].0));
    }
}

/// The number of winners that one batch pays.
pub open spec fn batch_len(m: MarketState, batch_size: u32) -> int {
    let n = ordered(winners(m)).len() as int;
    if n < batch_size {
        n
    } else {
        batch_size as int
    }
}

/// The winners that the next batch pays: the first in the ledger's order.
pub open spec fn batch(m: MarketState, batch_size: u32) -> Seq<(Address, i128)> {
    ordered(winners(m)).take(batch_len(m, batch_size))
}

/// What happens to the settlement fee: it is shared out where that has not been
/// done before.
pub open spec fn fee_effects(s: ContractState, m: MarketState, fee: i128) -> Result<
    EffectsView,
    Error,
> {
    if !m.settlement_fee_paid && fee > 0 {
        fee_split(s.config, fee, m.market.token)
    } else {
        Ok(EffectsView { transfers: seq![], events: seq![] })
    }
}

/// The payments of a batch.
pub open spec fn batch_payments(m: MarketState, batch_size: u32) -> Seq<Transfer> {
    payouts(
        batch(m, batch_size),
        m.market.token,
        payout_pool(m.total_shares)->Ok_0,
        winning_shares(m),
    )
}

/// Refusal of a batch because of what it has to pay.
pub open spec fn batch_pay_error(s: ContractState, id: u64, batch_size: u32) -> Option<Error> {
    let m = s.markets[id];
    let fee = settlement_fee(m.total_shares);
    let pool = payout_pool(m.total_shares);
    if batch(m, batch_size).len() == 0 {
        None
    } else if fee is Err || pool is Err || !payable(
        batch(m, batch_size),
        pool->Ok_0,
        winning_shares(m),
    ) {
        Some(Error::Overflow)
    } else {
        either(
            payment_error(
                s.config.vault_balance,
                m,
                batch(m, batch_size).len(),
                paid_out(batch_payments(m, batch_size)),
            ),
            fee_effects(s, m, fee->Ok_0).err(),
        )
    }
}

/// Refusal of a batch.
pub open spec fn batch_error(s: ContractState, now: u64, id: u64, batch_size: u32) -> Option<
    Error,
> {
    let m = s.markets[id];
    if s.config.locked {
        Some(Error::Reentrancy)
    } else if batch_size == 0 || batch_size > MAX_BATCH_SIZE {
        Some(Error::BatchSizeOutOfRange)
    } else if status_error(s, id, MarketStatus::Resolved, Error::MarketNotResolved) is Some {
        status_error(s, id, MarketStatus::Resolved, Error::MarketNotResolved)
    } else if m.unlock_timestamp matches Some(t) && now < t {
        Some(Error::SettlementBlocked)
    } else {
        batch_pay_error(s, id, batch_size)
    }
}

/// A market after a batch has been paid.
pub open spec fn after_batch(m: MarketState, batch_size: u32) -> MarketState {
    if batch(m, batch_size).len() == 0 {
        m
    } else {
        MarketState {
            settlement_fee_paid: m.settlement_fee_paid || settlement_fee(m.total_shares)->Ok_0 > 0,
            ..settled(m, batch(m, batch_size))
        }
    }
}

/// The contract after a batch has been paid.
pub open spec fn batch_state(s: ContractState, id: u64, batch_size: u32) -> ContractState {
    let m = s.markets[id];
    let vault = s.config.vault_balance;
    s.with_vault(
        if batch(m, batch_size).len() == 0 {
            vault
        } else {
            vault_after(vault, m, paid_out(batch_payments(m, batch_size)))
        },
    ).with_market(id, after_batch(m, batch_size))
}

/// What a batch asks of the ledger: the payouts, then the fee.
pub open spec fn batch_effects(s: ContractState, id: u64, batch_size: u32) -> EffectsView {
    let m = s.markets[id];
    let nothing = EffectsView { transfers: seq![], events: seq![] };
    if batch(m, batch_size).len() == 0 {
        nothing
    } else {
        EffectsView { transfers: batch_payments(m, batch_size), events: seq![] }.and(
            fee_effects(s, m, settlement_fee(m.total_shares)->Ok_0)->Ok_0,
        )
    }
}

/// The fee on a pool and what is left of it.
fn divide_pool(pool: i128) -> (res: Result<(i128, i128), Error>)
    ensures
        match res {
            Ok((fee, rest)) => {
                &&& settlement_fee(pool) == Ok::<i128, Error>(fee)
                &&& payout_pool(pool) == Ok::<i128, Error>(rest)
            },
            Err(e) => {
                &&& e == Error::Overflow
                &&& settlement_fee(pool) is Err || payout_pool(pool) is Err
            },
        },
{
    let bps: u32 = checked_dynamic_fee(pool)?;
    let fee: i128 = cmuldiv(pool, bps as i128, BPS)?;
    let rest: i128 = cmuldiv(pool, BPS - bps as i128, BPS)?;
    Ok((fee, rest))
}

/// The payments to a list of holders.
pub(crate) fn pay_all(
    entries: &Vec<(Address, i128)>,
    token: Address,
    pool: i128,
    stake: i128,
) -> (res: Result<Vec<Transfer>, Error>)
    ensures
        match res {
            Ok(transfers) => {
                &&& payable(entries@, pool, stake)
                &&& transfers@ == payouts(entries@, token, pool, stake)
            },
            Err(e) => e == Error::Overflow && !payable(entries@, pool, stake),
        },
{
    let mut transfers: Vec<Transfer> = Vec::new();
    let mut i: usize = 0;
    while i < entries.len()
        invariant
            i <= entries@.len(),
            transfers@ =~= payouts(entries@.take(i as int), token, pool, stake),
            forall|j: int|
                0 <= j < i ==> payout((#[trigger] entries@[j]).1, pool, stake) is Ok,
        decreases entries@.len() - i,
    {
        let (address, held) = entries[i];
        let amount: i128 = match cmuldiv(held, pool, stake) {
            Err(e) => {
                assert(payout(entries@[i as int].1, pool, stake) is Err);
                return Err(e);
            },
            Ok(amount) => amount,
        };
        transfers.push(Transfer::pay(token, address, amount));
        i = i + 1;
    }
    assert(entries@.take(entries@.len() as int) =~= entries@);
    Ok(transfers)
}

impl MarketRecord {
    /// Forget what a list of holders holds of the winning outcome.
    fn burn_all(&mut self, entries: &Vec<(Address, i128)>)
        requires
            old(self)@.wf(),
        ensures
            final(self)@ == old(self)@.with_position(
                old(self)@.market.winning_outcome,
                taken_out(winners(old(self)@), entries@),
            ),
    {
        let ghost m = self@;
        let winning_outcome: u32 = self.market.winning_outcome;
        let ghost w = winning_outcome as int;
        let mut i: usize = 0;
        assert(m.positions.update(w, taken_out(winners(m), entries@.take(0))) =~= m.positions);
        while i < entries.len()
            invariant
                i <= entries@.len(),
                m.wf(),
                winning_outcome == m.market.winning_outcome,
                w == winning_outcome,
                self@ == m.with_position(
                    winning_outcome,
                    taken_out(winners(m), entries@.take(i as int)),
                ),
            decreases entries@.len() - i,
        {
            proof {
                assert(entries@.take(i + 1).drop_last() =~= entries@.take(i as int));
            }
            self.remove_position(winning_outcome, entries[i].0);
            assert(self@.positions =~= m.positions.update(
                w,
                taken_out(winners(m), entries@.take(i + 1)),
            ));
            i = i + 1;
        }
        assert(entries@.take(entries@.len() as int) =~= entries@);
    }
}

impl MarketRecord {
    /// Count a list of winners as paid, burn their positions, and spend what is
    /// on record for them.
    pub(crate) fn settle_all(&mut self, entries: &Vec<(Address, i128)>)
        requires
            old(self)@.wf(),
            old(self)@.winners_paid + entries@.len() <= u32::MAX,
        ensures
            final(self)@ == settled(old(self)@, entries@),
    {
        let ghost m = self@;
        self.burn_all(entries);
        let ghost burned = self@;
        if self.swept {
            let mut i: usize = 0;
            assert(entries@.take(0) =~= Seq::empty());
            while i < entries.len()
                invariant
                    i <= entries@.len(),
                    self@ == (MarketState {
                        original_payouts: spent(m.original_payouts, entries@.take(i as int)),
                        ..burned
                    }),
                decreases entries@.len() - i,
            {
                proof {
                    assert(entries@.take(i + 1).drop_last() =~= entries@.take(i as int));
                }
                self.original_payouts.set(entries[i].0, 0);
                i = i + 1;
            }
            assert(entries@.take(entries@.len() as int) =~= entries@);
        }
        self.winners_paid = self.winners_paid + entries.len() as u32;
    }
}

/// What the vault holds after payments to a number of winners of a market.
pub(crate) fn pay_from_vault(vault: i128, record: &MarketRecord, count: usize, paid: i128) -> (res:
    Result<i128, Error>)
    ensures
        match res {
            Ok(left) => {
                &&& payment_error(vault, record@, count as nat, paid as int) is None
                &&& left == vault_after(vault, record@, paid as int)
            },
            Err(e) => payment_error(vault, record@, count as nat, paid as int) == Some(e),
        },
{
    if count > (u32::MAX - record.winners_paid) as usize {
        return Err(Error::Overflow);
    }
    if !record.swept {
        return Ok(vault);
    }
    if vault < paid {
        return Err(Error::InsufficientVault);
    }
    csub(vault, paid)
}

impl PredictionMarket {
    /// Batch-distribute rewards to at most `batch_size` winners per call.
    ///
    /// The winners are paid in the ledger's order of their addresses, and a paid
    /// winner's position is burned, so callers can page through any number of
    /// winners. The first batch also shares out the platform's fee. Nothing is
    /// paid before an oracle's challenge period is over. What is paid after a
    /// sweep comes out of the vault.
    ///
    /// Returns the number of winners paid in this call.
    pub fn batch_distribute(&mut self, now: u64, market_id: u64, batch_size: u32) -> (res: Result<
        (u32, Effects),
        Error,
    >)
        requires
            old(self)@.wf(),
        ensures
            final(self)@.wf(),
            ({
                let s = old(self)@;
                let m = s.markets[market_id];
                match res {
                    Ok((paid, effects)) => {
                        &&& batch_error(s, now, market_id, batch_size) is None
                        &&& paid == batch(m, batch_size).len()
                        &&& final(self)@ == batch_state(s, market_id, batch_size)
                        &&& effects@ == batch_effects(s, market_id, batch_size)
                    },
                    Err(e) => {
                        &&& batch_error(s, now, market_id, batch_size) == Some(e)
                        &&& final(self)@ == s
                    },
                }
            }),
    {
        if self.config.locked {
            return Err(Error::Reentrancy);
        }
        if batch_size == 0 || batch_size > MAX_BATCH_SIZE {
            return Err(Error::BatchSizeOutOfRange);
        }
        let record = self.check_status(
            market_id,
            MarketStatus::Resolved,
            Error::MarketNotResolved,
        )?;
        let ghost m = record@;
        if let Some(t) = record.unlock_timestamp {
            if now < t {
                return Err(Error::SettlementBlocked);
            }
        }
        let winning_outcome: u32 = record.market.winning_outcome;
        let token = record.market.token;
        let mut entries = record.positions[winning_outcome as usize].entries();
        proof {
            lemma_winners(m);
            lemma_lists_total(entries@, winners(m));
            lemma_listing_picks(entries@, winners(m), batch_len(m, batch_size));
        }
        if entries.len() > batch_size as usize {
            entries.truncate(batch_size as usize);
        }
        assert(entries@ =~= batch(m, batch_size));
        let paid: u32 = entries.len() as u32;
        if paid == 0 {
            assert(self@ =~= batch_state(self@, market_id, batch_size));
            return Ok((0, Effects::none()));
        }
        let stake: i128 = match record.outcome_shares.get(winning_outcome) {
            Some(stake) => stake,
            None => 0,
        };
        let (fee, pool) = divide_pool(record.total_shares)?;
        let transfers = pay_all(&entries, token, pool, stake)?;
        proof {
            lemma_running_total(m, entries@, token, pool, stake);
            assert(transfers@.take(transfers@.len() as int) =~= transfers@);
        }
        let sum: i128 = sum_of(&transfers);
        let vault_balance: i128 = pay_from_vault(
            self.config.vault_balance,
            record,
            entries.len(),
            sum,
        )?;
        let charge = !record.settlement_fee_paid && fee > 0;
        let mut effects = Effects { transfers, events: Vec::new() };
        if charge {
            let split = self.distribute_fee_split(fee, token)?;
            effects.append(split);
        }
        assert(effects@ =~= batch_effects(self@, market_id, batch_size));

        proof {
            lemma_settled(m, entries@);
        }
        let mut record = self.take_market(market_id);
        record.settle_all(&entries);
        if charge {
            record.settlement_fee_paid = true;
        }
        assert(record@ =~= after_batch(m, batch_size));
        self.put_market(market_id, record);
        self.config.vault_balance = vault_balance;
        assert(self@ =~= batch_state(old(self)@, market_id, batch_size));
        Ok((paid, effects))
    }

    /// Convenience: settle all winners in one call (capped at `MAX_BATCH_SIZE`).
    /// For markets with more winners, call `batch_distribute` in a loop.
    pub fn distribute_rewards(&mut self, now: u64, market_id: u64) -> (res: Result<
        (u32, Effects),
        Error,
    >)
        requires
            old(self)@.wf(),
        ensures
            final(self)@.wf(),
            ({
                let s = old(self)@;
                let m = s.markets[market_id];
                match res {
                    Ok((paid, effects)) => {
                        &&& batch_error(s, now, market_id, MAX_BATCH_SIZE) is None
                        &&& paid == batch(m, MAX_BATCH_SIZE).len()
                        &&& final(self)@ == batch_state(s, market_id, MAX_BATCH_SIZE)
                        &&& effects@ == batch_effects(s, market_id, MAX_BATCH_SIZE)
                    },
                    Err(e) => {
                        &&& batch_error(s, now, market_id, MAX_BATCH_SIZE) == Some(e)
                        &&& final(self)@ == s
                    },
                }
            }),
    {
        self.batch_distribute(now, market_id, MAX_BATCH_SIZE)
    }
}

/// Whether an address is among a list of holders.
pub open spec fn among(entries: Seq<(Address, i128)>, address: Address) -> bool {
    exists|i: int| 0 <= i < entries.len() && (#[trigger] entries[i]).0 == address
}

/// The winners among a list of recipients who have not been paid, each once and
/// with what it holds.
pub open spec fn payees(m: MarketState, recipients: Seq<Address>) -> Seq<(Address, i128)>
    decreases recipients.len(),
{
    if recipients.len() == 0 {
        seq![]
    } else {
        let before = payees(m, recipients.drop_last());
        let r = recipients.last();
        if flag_of(m.payout_claimed, r) || among(before, r) || amount_of(winners(m), r) == 0 {
            before
        } else {
            before.push((r, amount_of(winners(m), r)))
        }
    }
}

/// Flags with those of a list of holders set.
pub open spec fn flagged(flags: Map<Address, bool>, entries: Seq<(Address, i128)>) -> Map<
    Address,
    bool,
>
    decreases entries.len(),
{
    if entries.len() == 0 {
        flags
    } else {
        flagged(flags, entries.drop_last()).insert(entries.last().0, true)
    }
}

/// Payees are winners, each named once and among the recipients.
pub proof fn lemma_payees(m: MarketState, recipients: Seq<Address>)
    requires
        m.wf(),
    ensures
        picks(payees(m, recipients), winners(m)),
        payees(m, recipients).len() <= recipients.len(),
    decreases recipients.len(),
{
    lemma_winners(m);
    if recipients.len() > 0 {
        let before = payees(m, recipients.drop_last());
        let r = recipients.last();
        lemma_payees(m, recipients.drop_last());
        let after = payees(m, recipients);
        if after != before {
            let k = before.len() as int;
            assert forall|i: int| 0 <= i < after.len() implies winners(m).contains_key(
                (#[trigger] after[i]).0,
            ) && winners(m)[after[i].0] == after[i].1 by {
                if i < k {
                    assert(after[i] == before[i]);
                }
            }
            assert forall|i: int, j: int| 0 <= i < j < after.len() implies (
            #[trigger] after[i]).0 != (#[trigger] after[j]).0 by {
                assert(after[i] == before[i]);
                if j < k {
                    assert(after[j] == before[j]);
                } else {
                    assert(!among(before, r));
                }
            }
        }
    }
}

/// What the picked holders hold is no more than the winning stake, and none
/// holds less than nothing.
pub proof fn lemma_picks_total(m: MarketState, entries: Seq<(Address, i128)>)
    requires
        m.wf(),
        picks(entries, winners(m)),
    ensures
        entries_total(entries) <= total(winners(m)),
        forall|i: int| 0 <= i < entries.len() ==> (#[trigger] entries[i]).1 > 0,
{
    lemma_winners(m);
    let rest = taken_out(winners(m), entries);
    lemma_taken_out(winners(m), entries);
    assert forall|a: Address| #[trigger] rest.contains_key(a) implies rest[a] >= 0 by {
        assert(winners(m).contains_key(a));
    }
    lemma_total_nonnegative(rest);
}

/// Refusal of a payout to recipients because of what it has to pay.
pub open spec fn payout_pay_error(
    vault: i128,
    m: MarketState,
    recipients: Seq<Address>,
) -> Option<Error> {
    let pool = payout_pool(m.total_shares);
    if total(winners(m)) <= 0 {
        Some(Error::NoWinners)
    } else if pool is Err || !payable(
        payees(m, recipients),
        pool->Ok_0,
        winning_shares(m),
    ) {
        Some(Error::Overflow)
    } else {
        payment_error(
            vault,
            m,
            payees(m, recipients).len(),
            paid_out(payout_transfers(m, recipients)),
        )
    }
}

/// Refusal of a payout to recipients.
pub open spec fn batch_payout_error(
    s: ContractState,
    id: u64,
    recipients: Seq<Address>,
    resolver: Address,
) -> Option<Error> {
    let m = s.markets[id];
    if role_error(s, resolver, Role::Resolver) is Some {
        role_error(s, resolver, Role::Resolver)
    } else if s.config.locked {
        Some(Error::Reentrancy)
    } else if recipients.len() > MAX_PAYOUT_RECIPIENTS {
        Some(Error::TooManyRecipients)
    } else if status_error(s, id, MarketStatus::Resolved, Error::MarketNotResolved) is Some {
        status_error(s, id, MarketStatus::Resolved, Error::MarketNotResolved)
    } else if m.dispute matches Some(d) && d.active {
        Some(Error::PayoutsPaused)
    } else {
        payout_pay_error(s.config.vault_balance, m, recipients)
    }
}

/// A market after recipients have been paid.
pub open spec fn after_payout(m: MarketState, recipients: Seq<Address>) -> MarketState {
    MarketState {
        payout_claimed: flagged(m.payout_claimed, payees(m, recipients)),
        ..settled(m, payees(m, recipients))
    }
}

/// The contract after recipients have been paid.
pub open spec fn payout_state(
    s: ContractState,
    id: u64,
    recipients: Seq<Address>,
) -> ContractState {
    let m = s.markets[id];
    s.with_vault(
        vault_after(s.config.vault_balance, m, paid_out(payout_transfers(m, recipients))),
    ).with_market(id, after_payout(m, recipients))
}

/// The payments of a payout to recipients.
pub open spec fn payout_transfers(m: MarketState, recipients: Seq<Address>) -> Seq<Transfer> {
    payouts(
        payees(m, recipients),
        m.market.token,
        payout_pool(m.total_shares)->Ok_0,
        winning_shares(m),
    )
}

/// Whether an address is among a list of holders.
fn is_among(entries: &Vec<(Address, i128)>, address: Address) -> (res: bool)
    ensures
        res == among(entries@, address),
{
    let mut i: usize = 0;
    while i < entries.len()
        invariant
            i <= entries@.len(),
            forall|j: int| 0 <= j < i ==> (#[trigger] entries@[j]).0 != address,
        decreases entries@.len() - i,
    {
        if entries[i].0 == address {
            assert(entries@[i as int].0 == address);
            return true;
        }
        i = i + 1;
    }
    false
}

/// Sum of the amounts of a list of transfers.
pub(crate) fn sum_of(transfers: &Vec<Transfer>) -> (res: i128)
    requires
        forall|n: int|
            0 <= n <= transfers@.len() ==> fits(#[trigger] paid_out(transfers@.take(n))),
    ensures
        res == paid_out(transfers@),
{
    let mut sum: i128 = 0;
    let mut i: usize = 0;
    assert(transfers@.take(0) =~= Seq::empty());
    while i < transfers.len()
        invariant
            i <= transfers@.len(),
            sum == paid_out(transfers@.take(i as int)),
            forall|n: int|
                0 <= n <= transfers@.len() ==> fits(#[trigger] paid_out(transfers@.take(n))),
        decreases transfers@.len() - i,
    {
        proof {
            assert(transfers@.take(i + 1).drop_last() =~= transfers@.take(i as int));
            assert(fits(paid_out(transfers@.take(i + 1))));
        }
        sum = sum + transfers[i].amount;
        i = i + 1;
    }
    assert(transfers@.take(transfers@.len() as int) =~= transfers@);
    sum
}

impl MarketRecord {
    /// The winners among a list of recipients who have not been paid.
    fn payees_among(&self, recipients: &Vec<Address>) -> (res: Vec<(Address, i128)>)
        requires
            self@.wf(),
        ensures
            res@ == payees(self@, recipients@),
    {
        let mut res: Vec<(Address, i128)> = Vec::new();
        let mut i: usize = 0;
        assert(recipients@.take(0) =~= Seq::empty());
        while i < recipients.len()
            invariant
                i <= recipients@.len(),
                self@.wf(),
                res@ == payees(self@, recipients@.take(i as int)),
            decreases recipients@.len() - i,
        {
            proof {
                assert(recipients@.take(i + 1).drop_last() =~= recipients@.take(i as int));
            }
            let r = recipients[i];
            let held: i128 = self.position(self.market.winning_outcome, r);
            if !self.payout_claimed.get(r) && !is_among(&res, r) && held != 0 {
                res.push((r, held));
            }
            i = i + 1;
        }
        assert(recipients@.take(recipients@.len() as int) =~= recipients@);
        res
    }

    /// Set the flag of every holder of a list.
    fn flag_all(&mut self, entries: &Vec<(Address, i128)>)
        ensures
            final(self)@ == (MarketState {
                payout_claimed: flagged(old(self)@.payout_claimed, entries@),
                ..old(self)@
            }),
    {
        let ghost m = self@;
        let mut i: usize = 0;
        assert(entries@.take(0) =~= Seq::empty());
        while i < entries.len()
            invariant
                i <= entries@.len(),
                self@ == (MarketState {
                    payout_claimed: flagged(m.payout_claimed, entries@.take(i as int)),
                    ..m
                }),
            decreases entries@.len() - i,
        {
            proof {
                assert(entries@.take(i + 1).drop_last() =~= entries@.take(i as int));
            }
            self.payout_claimed.set(entries[i].0, true);
            i = i + 1;
        }
        assert(entries@.take(entries@.len() as int) =~= entries@);
    }
}

/// The first payments of a list add up to an amount that fits.
pub proof fn lemma_running_total(
    m: MarketState,
    entries: Seq<(Address, i128)>,
    token: Address,
    pool: i128,
    stake: i128,
)
    requires
        m.wf(),
        picks(entries, winners(m)),
        payable(entries, pool, stake),
        total(winners(m)) <= stake,
        stake > 0,
    ensures
        forall|n: int|
            0 <= n <= entries.len() ==> fits(
                #[trigger] paid_out(payouts(entries, token, pool, stake).take(n)),
            ),
{
    let all = payouts(entries, token, pool, stake);
    lemma_picks_total(m, entries);
    assert forall|n: int| 0 <= n <= entries.len() implies fits(
        #[trigger] paid_out(all.take(n)),
    ) by {
        let front = entries.take(n);
        assert(all.take(n) =~= payouts(front, token, pool, stake));
        assert forall|i: int| 0 <= i < front.len() implies (#[trigger] front[i]).1 >= 0 && payout(
            front[i].1,
            pool,
            stake,
        ) is Ok by {
            assert(front[i] == entries[i]);
        }
        lemma_entries_prefix(entries, n);
        lemma_payouts_fit(front, token, pool, stake);
    }
}

impl PredictionMarket {
    /// Batch payout processor for distributing rewards to multiple winners.
    ///
    /// At most 50 recipients per call. Recipients who have already been paid, or
    /// who hold nothing of the winning outcome, are skipped; the others are paid
    /// the part of the payout pool that their holding is of all winning shares,
    /// flagged as paid, and their position is burned. Nothing is paid while a
    /// dispute is active, or when nobody is left to be paid. What is paid after a
    /// sweep comes out of the vault.
    ///
    /// Returns the number of recipients paid.
    pub fn batch_payout(
        &mut self,
        market_id: u64,
        recipients: Vec<Address>,
        resolver: Address,
    ) -> (res: Result<(u32, Effects), Error>)
        requires
            old(self)@.wf(),
        ensures
            final(self)@.wf(),
            ({
                let s = old(self)@;
                let m = s.markets[market_id];
                let error = batch_payout_error(s, market_id, recipients@, resolver);
                match res {
                    Ok((paid, effects)) => {
                        let transfers = payout_transfers(m, recipients@);
                        &&& error is None
                        &&& paid == payees(m, recipients@).len()
                        &&& final(self)@ == payout_state(s, market_id, recipients@)
                        &&& effects@ == (EffectsView {
                            transfers,
                            events: seq![
                                Event::PayoutClaimed {
                                    market_id,
                                    recipients: paid,
                                    total: paid_out(transfers) as i128,
                                },
                            ],
                        })
                        &&& fits(paid_out(transfers))
                    },
                    Err(e) => error == Some(e) && final(self)@ == s,
                }
            }),
    {
        self.require_role(resolver, Role::Resolver)?;
        if self.config.locked {
            return Err(Error::Reentrancy);
        }
        if recipients.len() > MAX_PAYOUT_RECIPIENTS as usize {
            return Err(Error::TooManyRecipients);
        }
        let record = self.check_status(
            market_id,
            MarketStatus::Resolved,
            Error::MarketNotResolved,
        )?;
        let ghost m = record@;
        if let Some(dispute) = &record.dispute {
            if dispute.active {
                return Err(Error::PayoutsPaused);
            }
        }
        proof {
            lemma_winners(m);
            lemma_payees(m, recipients@);
        }
        let token = record.market.token;
        let winning_outcome: u32 = record.market.winning_outcome;
        let held: i128 = record.positions[winning_outcome as usize].sum()?;
        if held <= 0 {
            return Err(Error::NoWinners);
        }
        let stake: i128 = match record.outcome_shares.get(winning_outcome) {
            Some(stake) => stake,
            None => 0,
        };
        let bps: u32 = checked_dynamic_fee(record.total_shares)?;
        let pool: i128 = cmuldiv(record.total_shares, BPS - bps as i128, BPS)?;
        let entries = record.payees_among(&recipients);
        let transfers = pay_all(&entries, token, pool, stake)?;
        proof {
            lemma_running_total(m, entries@, token, pool, stake);
            assert(transfers@.take(transfers@.len() as int) =~= transfers@);
        }
        let total: i128 = sum_of(&transfers);
        let paid: u32 = entries.len() as u32;
        let vault_balance: i128 = pay_from_vault(
            self.config.vault_balance,
            record,
            entries.len(),
            total,
        )?;

        proof {
            lemma_settled(m, entries@);
        }
        let mut record = self.take_market(market_id);
        record.settle_all(&entries);
        record.flag_all(&entries);
        assert(record@ =~= after_payout(m, recipients@));
        self.put_market(market_id, record);
        self.config.vault_balance = vault_balance;
        assert(self@ =~= payout_state(old(self)@, market_id, recipients@));
        let mut effects = Effects { transfers, events: Vec::new() };
        effects.events.push(Event::PayoutClaimed { market_id, recipients: paid, total });
        Ok((paid, effects))
    }
}

/// The part of the payout pool that an address has by what it holds of the
/// winning shares.
pub open spec fn share_of(m: MarketState, address: Address) -> Result<i128, Error> {
    match payout_pool(m.total_shares) {
        Err(e) => Err(e),
        Ok(pool) => payout(amount_of(winners(m), address), pool, winning_shares(m)),
    }
}

/// What a claimant can claim from a market: the payout and what it asks of the
/// ledger, or nothing, or why the claim fails.
pub open spec fn claim(s: ContractState, id: u64, claimant: Address) -> Result<
    Option<(i128, EffectsView)>,
    Error,
> {
    let m = s.markets[id];
    let fee = settlement_fee(m.total_shares);
    if !s.markets.contains_key(id) || m.market.status != MarketStatus::Resolved || s.config.locked
        || amount_of(winners(m), claimant) == 0 {
        Ok(None)
    } else if fee is Err || share_of(m, claimant) is Err {
        Err(Error::Overflow)
    } else {
        let paid = share_of(m, claimant)->Ok_0;
        let error = payment_error(s.config.vault_balance, m, 1, paid as int);
        let split = fee_effects(s, m, fee->Ok_0);
        if paid <= 0 {
            Ok(None)
        } else if error is Some {
            Err(error->0)
        } else if split is Err {
            Err(split->Err_0)
        } else {
            let payment = EffectsView {
                transfers: seq![Transfer::pay(m.market.token, claimant, paid)],
                events: seq![],
            };
            Ok(Some((paid, payment.and(split->Ok_0))))
        }
    }
}

/// A market after a claimant has been paid.
pub open spec fn after_claim(m: MarketState, claimant: Address) -> MarketState {
    MarketState {
        settlement_fee_paid: m.settlement_fee_paid || settlement_fee(m.total_shares)->Ok_0 > 0,
        ..settled(m, sole(m, claimant))
    }
}

/// The contract after a claimant has been paid from a market.
pub open spec fn claim_state(s: ContractState, id: u64, claimant: Address) -> ContractState {
    let m = s.markets[id];
    s.with_vault(
        vault_after(s.config.vault_balance, m, share_of(m, claimant)->Ok_0 as int),
    ).with_market(id, after_claim(m, claimant))
}

/// The outcome of claims from several markets in turn: the state, the sum and
/// the effects, or the first failure.
pub open spec fn claims(s: ContractState, ids: Seq<u64>, claimant: Address) -> Result<
    (ContractState, i128, EffectsView),
    Error,
>
    decreases ids.len(),
{
    if ids.len() == 0 {
        Ok((s, 0, EffectsView { transfers: seq![], events: seq![] }))
    } else {
        match claims(s, ids.drop_last(), claimant) {
            Err(e) => Err(e),
            Ok((t, sum, effects)) => match claim(t, ids.last(), claimant) {
                Err(e) => Err(e),
                Ok(None) => Ok((t, sum, effects)),
                Ok(Some((paid, more))) => if fits(sum + paid) {
                    Ok(
                        (
                            claim_state(t, ids.last(), claimant),
                            (sum + paid) as i128,
                            effects.and(more),
                        ),
                    )
                } else {
                    Err(Error::Overflow)
                },
            },
        }
    }
}

/// The state after a claimant has been paid from some markets.
spec fn after_claims(s: ContractState, ids: Seq<u64>, claimant: Address) -> ContractState
    decreases ids.len(),
{
    if ids.len() == 0 {
        s
    } else {
        claim_state(after_claims(s, ids.drop_last(), claimant), ids.last(), claimant)
    }
}

/// Claims touch only the vault and the markets claimed from; those have nothing
/// left for the claimant.
proof fn lemma_after_claims(s: ContractState, ids: Seq<u64>, claimant: Address)
    requires
        s.wf(),
        ids.no_duplicates(),
        forall|i: int| 0 <= i < ids.len() ==> s.markets.contains_key(#[trigger] ids[i]),
    ensures
        ({
            let t = after_claims(s, ids, claimant);
            &&& t.wf()
            &&& t == ContractState { markets: t.markets, ..s.with_vault(t.config.vault_balance) }
            &&& t.markets.dom() =~= s.markets.dom()
            &&& forall|id: u64|
                !ids.contains(id) ==> (#[trigger] t.markets[id]) == s.markets[id]
            &&& forall|id: u64|
                ids.contains(id) ==> amount_of(winners(#[trigger] t.markets[id]), claimant) == 0
        }),
    decreases ids.len(),
{
    if ids.len() > 0 {
        let front = ids.drop_last();
        let last = ids.last();
        let n = ids.len() as int;
        assert forall|i: int| 0 <= i < front.len() implies s.markets.contains_key(
            #[trigger] front[i],
        ) by {
            assert(front[i] == ids[i]);
        }
        assert(front.no_duplicates());
        lemma_after_claims(s, front, claimant);
        let before = after_claims(s, front, claimant);
        assert(last == ids[n - 1]);
        assert(!front.contains(last)) by {
            if front.contains(last) {
                let i = choose|i: int| 0 <= i < front.len() && front[i] == last;
                assert(ids[i] == ids[n - 1]);
            }
        }
        assert(before.markets.contains_key(last));
        lemma_sole(before.markets[last], claimant);
        let after = after_claims(s, ids, claimant);
        assert(winners(after.markets[last]) == winners(before.markets[last]).remove(claimant));
        assert forall|id: u64| ids.contains(id) <==> (front.contains(id) || id == last) by {
            if ids.contains(id) && id != last {
                let i = choose|i: int| 0 <= i < ids.len() && ids[i] == id;
                assert(front[i] == id);
            }
            if front.contains(id) {
                let i = choose|i: int| 0 <= i < front.len() && front[i] == id;
                assert(ids[i] == id);
            }
        }
    }
}

/// A claim on a market, planned.
struct Plan {
    paid: i128,
    /// Whether the claim shares out the settlement fee.
    charge: bool,
    /// What is left in the vault.
    vault: i128,
    effects: Effects,
}

impl PredictionMarket {
    /// What a claimant can claim from a market, with so much in the vault.
    fn plan_claim(&self, id: u64, claimant: Address, vault: i128) -> (res: Result<
        Option<Plan>,
        Error,
    >)
        requires
            self@.wf(),
        ensures
            ({
                let s = self@.with_vault(vault);
                let m = s.markets[id];
                match res {
                    Err(e) => claim(s, id, claimant) == Err::<
                        Option<(i128, EffectsView)>,
                        Error,
                    >(e),
                    Ok(None) => claim(s, id, claimant) == Ok::<
                        Option<(i128, EffectsView)>,
                        Error,
                    >(None),
                    Ok(Some(plan)) => {
                        &&& claim(s, id, claimant) == Ok::<Option<(i128, EffectsView)>, Error>(
                            Some((plan.paid, plan.effects@)),
                        )
                        &&& s.markets.contains_key(id)
                        &&& m.winners_paid < u32::MAX
                        &&& share_of(m, claimant) == Ok::<i128, Error>(plan.paid)
                        &&& plan.vault == vault_after(vault, m, plan.paid as int)
                        &&& plan.charge == (!m.settlement_fee_paid && settlement_fee(
                            m.total_shares,
                        )->Ok_0 > 0)
                    },
                }
            }),
    {
        let record = match self.markets.get(id) {
            None => {
                return Ok(None);
            },
            Some(record) => record,
        };
        if record.market.status != MarketStatus::Resolved {
            return Ok(None);
        }
        if self.config.locked {
            return Ok(None);
        }
        let ghost m = record@;
        let winning_outcome: u32 = record.market.winning_outcome;
        let held: i128 = record.position(winning_outcome, claimant);
        if held == 0 {
            return Ok(None);
        }
        let token = record.market.token;
        let stake: i128 = match record.outcome_shares.get(winning_outcome) {
            Some(stake) => stake,
            None => 0,
        };
        let (fee, pool) = divide_pool(record.total_shares)?;
        let paid: i128 = cmuldiv(held, pool, stake)?;
        if paid <= 0 {
            return Ok(None);
        }
        let left: i128 = pay_from_vault(vault, record, 1, paid)?;
        let charge = !record.settlement_fee_paid && fee > 0;
        let mut effects = Effects::transfer(Transfer::pay(token, claimant, paid));
        if charge {
            let split = self.distribute_fee_split(fee, token)?;
            effects.append(split);
        }
        assert(effects@ =~= EffectsView {
            transfers: seq![Transfer::pay(m.market.token, claimant, paid)],
            events: seq![],
        }.and(fee_effects(self@, m, fee)->Ok_0));
        Ok(Some(Plan { paid, charge, vault: left, effects }))
    }

    /// Eager-claim payouts from multiple resolved markets.
    ///
    /// A market that is not there, not resolved, or in which the claimant has
    /// nothing to claim is skipped. A claim burns the position, so a market
    /// named twice pays once. The first claim from a market also shares out the
    /// platform's fee, and a claim from a market that was swept is paid out of
    /// the vault. Returns the total payout claimed across all markets.
    pub fn bulk_claim(&mut self, market_ids: Vec<u64>, claimant: Address) -> (res: Result<
        (i128, Effects),
        Error,
    >)
        requires
            old(self)@.wf(),
        ensures
            final(self)@.wf(),
            match res {
                Ok((sum, effects)) => claims(old(self)@, market_ids@, claimant) == Ok::<
                    (ContractState, i128, EffectsView),
                    Error,
                >((final(self)@, sum, effects@)),
                Err(e) => {
                    &&& claims(old(self)@, market_ids@, claimant) == Err::<
                        (ContractState, i128, EffectsView),
                        Error,
                    >(e)
                    &&& final(self)@ == old(self)@
                },
            },
    {
        let ghost s = self@;
        let mut sum: i128 = 0;
        let mut effects = Effects::none();
        let mut vault: i128 = self.config.vault_balance;
        let mut claimed: Vec<u64> = Vec::new();
        let mut charged: Vec<bool> = Vec::new();
        let mut i: usize = 0;
        assert(market_ids@.take(0) =~= Seq::empty());
        while i < market_ids.len()
            invariant
                i <= market_ids@.len(),
                self@ == s,
                s == old(self)@,
                s.wf(),
                claimed@.len() == charged@.len(),
                claimed@.no_duplicates(),
                forall|j: int|
                    0 <= j < claimed@.len() ==> s.markets.contains_key(#[trigger] claimed@[j])
                        && s.markets[claimed@[j]].winners_paid < u32::MAX && charged@[j] == (
                    !s.markets[claimed@[j]].settlement_fee_paid && settlement_fee(
                        s.markets[claimed@[j]].total_shares,
                    )->Ok_0 > 0),
                after_claims(s, claimed@, claimant).config.vault_balance == vault,
                claims(s, market_ids@.take(i as int), claimant) == Ok::<
                    (ContractState, i128, EffectsView),
                    Error,
                >((after_claims(s, claimed@, claimant), sum, effects@)),
            decreases market_ids@.len() - i,
        {
            let id: u64 = market_ids[i];
            let ghost ids = market_ids@.take(i + 1);
            let ghost t = after_claims(s, claimed@, claimant);
            proof {
                assert(ids.drop_last() =~= market_ids@.take(i as int));
                assert(ids.last() == id);
                lemma_after_claims(s, claimed@, claimant);
                lemma_claims_step(s, market_ids@, claimant, i as int);
            }
            let seen = contains_id(&claimed, id);
            assert(t.markets.contains_key(id) == s.markets.contains_key(id));
            if seen {
                assert(amount_of(winners(t.markets[id]), claimant) == 0);
                assert(claim(t, id, claimant) == Ok::<Option<(i128, EffectsView)>, Error>(None));
            } else {
                assert(t.config == s.with_vault(vault).config);
                assert(claim(t, id, claimant) == claim(s.with_vault(vault), id, claimant));
                let planned = self.plan_claim(id, claimant, vault)?;
                if let Some(plan) = planned {
                    if sum.checked_add(plan.paid).is_none() {
                        return Err(Error::Overflow);
                    }
                    sum = sum + plan.paid;
                    vault = plan.vault;
                    effects.append(plan.effects);
                    let ghost before = claimed@;
                    claimed.push(id);
                    charged.push(plan.charge);
                    assert(claimed@.drop_last() =~= before);
                    assert(after_claims(s, claimed@, claimant) == claim_state(t, id, claimant));
                    assert(claimed@.no_duplicates());
                }
            }
            i = i + 1;
        }
        assert(market_ids@.take(market_ids@.len() as int) =~= market_ids@);

        let mut j: usize = 0;
        assert(claimed@.take(0) =~= Seq::empty());
        while j < claimed.len()
            invariant
                j <= claimed@.len(),
                s.wf(),
                claimed@.len() == charged@.len(),
                claimed@.no_duplicates(),
                forall|k: int|
                    0 <= k < claimed@.len() ==> s.markets.contains_key(#[trigger] claimed@[k])
                        && s.markets[claimed@[k]].winners_paid < u32::MAX && charged@[k] == (
                    !s.markets[claimed@[k]].settlement_fee_paid && settlement_fee(
                        s.markets[claimed@[k]].total_shares,
                    )->Ok_0 > 0),
                self@ == after_claims(s, claimed@.take(j as int), claimant).with_config(s.config),
            decreases claimed@.len() - j,
        {
            let id: u64 = claimed[j];
            let ghost front = claimed@.take(j as int);
            let ghost t = after_claims(s, front, claimant);
            proof {
                assert(claimed@.take(j + 1).drop_last() =~= front);
                assert forall|k: int| 0 <= k < front.len() implies s.markets.contains_key(
                    #[trigger] front[k],
                ) by {
                    assert(front[k] == claimed@[k]);
                }
                lemma_after_claims(s, front, claimant);
                assert(!front.contains(id)) by {
                    if front.contains(id) {
                        let k = choose|k: int| 0 <= k < front.len() && front[k] == id;
                        assert(claimed@[k] == claimed@[j as int]);
                    }
                }
                assert(t.markets[id] == s.markets[id]);
                assert(t.markets.contains_key(id));
            }
            let ghost before = self@;
            let mut record = self.take_market(id);
            let held: i128 = record.position(record.market.winning_outcome, claimant);
            let mut entries: Vec<(Address, i128)> = Vec::new();
            entries.push((claimant, held));
            assert(entries@ =~= sole(t.markets[id], claimant));
            record.settle_all(&entries);
            if charged[j] {
                record.settlement_fee_paid = true;
            }
            assert(record@ =~= after_claim(t.markets[id], claimant));
            self.put_market(id, record);
            assert(self@ =~= before.with_market(id, after_claim(t.markets[id], claimant)));
            assert(self@ =~= after_claims(s, claimed@.take(j + 1), claimant).with_config(
                s.config,
            ));
            j = j + 1;
        }
        self.config.vault_balance = vault;
        proof {
            assert(claimed@.take(claimed@.len() as int) =~= claimed@);
            lemma_after_claims(s, claimed@, claimant);
            assert(self@ =~= after_claims(s, claimed@, claimant));
        }
        Ok((sum, effects))
    }
}

/// Claims from a list of markets fail where claims from its first ones fail.
proof fn lemma_claims_step(s: ContractState, ids: Seq<u64>, claimant: Address, i: int)
    requires
        0 <= i < ids.len(),
    ensures
        claims(s, ids.take(i + 1), claimant) is Err ==> claims(s, ids, claimant) == claims(
            s,
            ids.take(i + 1),
            claimant,
        ),
    decreases ids.len() - i,
{
    if i + 1 < ids.len() {
        assert(ids.take(i + 2).drop_last() =~= ids.take(i + 1));
        lemma_claims_step(s, ids, claimant, i + 1);
    } else {
        assert(ids.take(i + 1) =~= ids);
    }
}

/// Whether a list of numbers has a number in it.
fn contains_id(ids: &Vec<u64>, id: u64) -> (res: bool)
    ensures
        res == ids@.contains(id),
{
    let mut i: usize = 0;
    while i < ids.len()
        invariant
            i <= ids@.len(),
            forall|j: int| 0 <= j < i ==> ids@[j] != id,
        decreases ids@.len() - i,
    {
        if ids[i] == id {
            assert(ids@[i as int] == id);
            return true;
        }
        i = i + 1;
    }
    false
}

} // verus!
