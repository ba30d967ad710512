//! What winners and liquidity providers are paid, in terms of what they hold and
//! what was paid in.
use vstd::prelude::*;

use crate::betting::{contributed, lp_reward, reward_error, with_reward};
use crate::fee_laws::{
    is_payout_pool, is_settlement_fee, lemma_pool_is_divided_by_its_rate,
    lemma_scaled_rounds_down, rounds_down,
};
use crate::fees::{fee_split, paid_out};
use crate::holdings::{
    entries_total, flag_of, lemma_lists_total, lemma_ordered_lists, lemma_total_nonnegative,
    ordered, total,
};
use crate::market::{concluded, resolve_error, settle_error};
use crate::payout_laws::{
    lemma_batch_pages, lemma_flagged, lemma_payees_unclaimed, winner_payments,
};
use crate::payouts::{
    among, batch, batch_effects, batch_error, batch_payments, batch_payout_error, batch_state,
    claim, claim_state, fee_effects, lemma_payees, lemma_payouts_fit, lemma_sole,
    lemma_taken_out, lemma_winners, payable, payees, payout, payout_pool, payout_state,
    payout_transfers, payouts, picks, settlement_fee, share_of, taken_out, winners,
    winning_shares,
};
use crate::state::{ContractState, MarketState};
use crate::types::{Address, MarketStatus, Party, Transfer};
use crate::vault::{
    after_original, after_sweep, original_error, original_payout, owed, sweep_error,
    unclaimed, unflagged,
};
use crate::vault_laws::{
    lemma_none_flagged, lemma_owed_total, lemma_same_total, lemma_share_is_payable,
};

verus! {

/// A transfer pays an account the part of a pool that it has by what it holds of
/// the winning outcome: held shares times pool over winning shares, rounded down.
pub open spec fn pays_share(t: Transfer, m: MarketState, pool: int) -> bool {
    let w = m.market.winning_outcome as int;
    &&& t.token == m.market.token
    &&& t.from == Party::Contract
    &&& t.to matches Party::Account(account)
    &&& m.positions[w].contains_key(account)
    &&& t.amount >= 0
    &&& rounds_down(t.amount as int, m.positions[w][account] * pool, m.outcome_shares[w] as int)
}

/// A payout is the holder's part of the pool, rounded down.
pub proof fn lemma_payout_rounds_down(held: i128, pool: i128, stake: i128)
    requires
        held >= 0,
        pool >= 0,
        stake > 0,
    ensures
        payout(held, pool, stake) matches Ok(x) ==> x >= 0 && rounds_down(
            x as int,
            held * pool,
            stake as int,
        ),
        payout(held, pool, stake) is Ok <==> held * pool <= i128::MAX,
{
    lemma_scaled_rounds_down(held as int, pool as int, stake as int);
}

/// Payments to winners are their parts of the pool.
proof fn lemma_payments_are_shares(m: MarketState, entries: Seq<(Address, i128)>, i: int)
    requires
        m.wf(),
        m.total_shares >= 0,
        picks(entries, winners(m)),
        payout_pool(m.total_shares) is Ok,
        payable(entries, payout_pool(m.total_shares)->Ok_0, winning_shares(m)),
        0 <= i < entries.len(),
    ensures
        ({
            let pool = payout_pool(m.total_shares)->Ok_0;
            let t = payouts(entries, m.market.token, pool, winning_shares(m))[i];
            t.to == Party::Account(entries[i].0) && pays_share(t, m, pool as int)
        }),
{
    lemma_winners(m);
    lemma_pool_is_divided_by_its_rate(m.total_shares);
    let e = entries[i];
    assert(winners(m).contains_key(e.0) && winners(m)[e.0] == e.1);
    lemma_payout_rounds_down(e.1, payout_pool(m.total_shares)->Ok_0, winning_shares(m));
    assert(payout(entries[i].1, payout_pool(m.total_shares)->Ok_0, winning_shares(m)) is Ok);
}

/// A batch pays the first winners in the ledger's order, as many as it is for or
/// as there are, each the part of the payout pool that it has by its holding;
/// those lose their positions, and nobody else. Where it pays anybody and the fee
/// on the pool was not shared out before, it is shared out behind the payments.
pub proof fn lemma_batch_pays_shares(s: ContractState, now: u64, id: u64, batch_size: u32)
    requires
        s.wf(),
        batch_error(s, now, id, batch_size) is None,
        s.markets[id].total_shares >= 0,
    ensures
        ({
            let m = s.markets[id];
            let w = m.market.winning_outcome as int;
            let held = m.positions[w];
            let effects = batch_effects(s, id, batch_size);
            let left = batch_state(s, id, batch_size).markets[id].positions;
            let fee = settlement_fee(m.total_shares)->Ok_0;
            let pool = payout_pool(m.total_shares)->Ok_0;
            let n = if batch_size < held.dom().len() {
                batch_size as int
            } else {
                held.dom().len() as int
            };
            &&& n > 0 ==> is_payout_pool(pool as int, m.total_shares as int)
            &&& n > 0 ==> is_settlement_fee(fee as int, m.total_shares as int)
            &&& effects.transfers.len() >= n
            &&& forall|i: int|
                0 <= i < n ==> pays_share(#[trigger] effects.transfers[i], m, pool as int)
                    && !left[w].contains_key(effects.transfers[i].to->Account_0)
            &&& forall|i: int, j: int|
                0 <= i < j < n ==> (#[trigger] effects.transfers[i]).to != (
                #[trigger] effects.transfers[j]).to
            &&& left[w].submap_of(held)
            &&& left[w].dom().len() == held.dom().len() - n
            &&& forall|a: Address, b: Address|
                #![trigger left[w].contains_key(a), held.contains_key(b)]
                left[w].contains_key(a) && held.contains_key(b) && !left[w].contains_key(b)
                    ==> b.precedes(a)
            &&& forall|o: int|
                0 <= o < left.len() && o != w ==> #[trigger] left[o] == m.positions[o]
            &&& n > 0 && fee > 0 && !m.settlement_fee_paid ==> {
                &&& fee_split(s.config, fee, m.market.token) matches Ok(split)
                &&& effects.transfers.skip(n) == split.transfers
                &&& effects.events == split.events
            }
            &&& n == 0 || fee <= 0 || m.settlement_fee_paid ==> effects.transfers.len() == n
                && effects.events.len() == 0
        }),
{
    let m = s.markets[id];
    let w = m.market.winning_outcome as int;
    let held = winners(m);
    let entries = batch(m, batch_size);
    let all = ordered(held);
    let effects = batch_effects(s, id, batch_size);
    let left = batch_state(s, id, batch_size).markets[id].positions;
    assert(m.wf());
    lemma_winners(m);
    lemma_ordered_lists(held);
    lemma_batch_pages(m, batch_size);
    lemma_pool_is_divided_by_its_rate(m.total_shares);
    lemma_taken_out(held, entries);
    let n = entries.len() as int;
    let pool = payout_pool(m.total_shares)->Ok_0;
    assert(left[w] == taken_out(held, entries)) by {
        if n == 0 {
            assert(taken_out(held, entries) == held);
        }
    }
    if n > 0 {
        let payments = batch_payments(m, batch_size);
        let fee = settlement_fee(m.total_shares)->Ok_0;
        assert forall|i: int| 0 <= i < n implies pays_share(
            #[trigger] effects.transfers[i],
            m,
            pool as int,
        ) && !left[w].contains_key(effects.transfers[i].to->Account_0) by {
            lemma_payments_are_shares(m, entries, i);
            assert(effects.transfers[i] == payments[i]);
            assert(held.contains_key(entries[i].0));
            assert(!taken_out(held, entries).contains_key(entries[i].0));
        }
        assert forall|i: int, j: int| 0 <= i < j < n implies (#[trigger] effects.transfers[i]).to
            != (#[trigger] effects.transfers[j]).to by {
            assert(effects.transfers[i] == payments[i] && effects.transfers[j] == payments[j]);
            assert(entries[i].0 != entries[j].0);
        }
        let more = fee_effects(s, m, fee)->Ok_0;
        assert(effects.transfers =~= payments + more.transfers);
        assert((payments + more.transfers).skip(n) =~= more.transfers);
        assert(effects.events =~= more.events);
    }
    assert forall|a: Address, b: Address|
        #![trigger left[w].contains_key(a), held.contains_key(b)]
        left[w].contains_key(a) && held.contains_key(b) && !left[w].contains_key(
            b,
        ) implies b.precedes(a) by {
        assert(held.contains_key(a));
        let i = choose|i: int| 0 <= i < all.len() && (#[trigger] all[i]).0 == a;
        let j = choose|j: int| 0 <= j < entries.len() && (#[trigger] entries[j]).0 == b;
        assert(among(entries, b)) by {
            if !among(entries, b) {
                assert(taken_out(held, entries).contains_key(b));
            }
        }
        assert(entries[j] == all[j]);
        if i < n {
            assert(entries[i].0 == a);
        }
        assert(all[j].0.precedes(all[i].0));
    }
}

/// A claim pays the claimant the part of the payout pool that it has by its
/// holding, and burns the holding.
pub proof fn lemma_claim_pays_share(s: ContractState, id: u64, claimant: Address)
    requires
        s.wf(),
        s.markets.contains_key(id),
        s.markets[id].total_shares >= 0,
    ensures
        ({
            let m = s.markets[id];
            let w = m.market.winning_outcome as int;
            let pool = payout_pool(m.total_shares)->Ok_0;
            let fee = settlement_fee(m.total_shares)->Ok_0;
            &&& claim(s, id, claimant) matches Ok(Some((paid, effects))) ==> {
                let after = claim_state(s, id, claimant).markets[id].positions;
                &&& m.market.status == MarketStatus::Resolved
                &&& !s.config.locked
                &&& is_payout_pool(pool as int, m.total_shares as int)
                &&& is_settlement_fee(fee as int, m.total_shares as int)
                &&& paid > 0
                &&& effects.transfers.len() >= 1
                &&& effects.transfers[0].amount == paid
                &&& effects.transfers[0].to == Party::Account(claimant)
                &&& pays_share(effects.transfers[0], m, pool as int)
                &&& after[w] == m.positions[w].remove(claimant)
                &&& fee > 0 && !m.settlement_fee_paid ==> {
                    &&& fee_split(s.config, fee, m.market.token) matches Ok(split)
                    &&& effects.transfers.skip(1) == split.transfers
                    &&& effects.events == split.events
                }
                &&& fee <= 0 || m.settlement_fee_paid ==> effects.transfers.len() == 1
                    && effects.events.len() == 0
            }
            &&& (m.market.status == MarketStatus::Resolved && !s.config.locked
                && m.positions[w].contains_key(claimant) && payout_pool(m.total_shares) is Ok
                && m.positions[w][claimant] * pool >= m.outcome_shares[w]) ==> !(claim(
                s,
                id,
                claimant,
            ) matches Ok(None))
        }),
{
    let m = s.markets[id];
    let w = m.market.winning_outcome as int;
    assert(m.wf());
    lemma_winners(m);
    lemma_sole(m, claimant);
    lemma_pool_is_divided_by_its_rate(m.total_shares);
    let pool = payout_pool(m.total_shares)->Ok_0;
    if winners(m).contains_key(claimant) && payout_pool(m.total_shares) is Ok {
        let h = winners(m)[claimant];
        lemma_payout_rounds_down(h, pool, winning_shares(m));
        if share_of(m, claimant) is Ok {
            let x = share_of(m, claimant)->Ok_0 as int;
            let stake = winning_shares(m) as int;
            assert(h * pool >= stake ==> x > 0) by (nonlinear_arith)
                requires
                    h * pool < (x + 1) * stake,
                    stake > 0,
            ;
        }
    }
    if let Ok(Some((paid, effects))) = claim(s, id, claimant) {
        let fee = settlement_fee(m.total_shares)->Ok_0;
        let first = seq![Transfer::pay(m.market.token, claimant, paid)];
        let more = fee_effects(s, m, fee)->Ok_0;
        assert(effects.transfers =~= first + more.transfers);
        assert((first + more.transfers).skip(1) =~= more.transfers);
        assert(effects.events =~= more.events);
    }
}

/// A payout to recipients pays each of them who holds winning shares and was not
/// paid before the part of the payout pool that it has by its holding, once, and
/// nobody else.
pub proof fn lemma_payout_pays_shares(
    s: ContractState,
    id: u64,
    recipients: Seq<Address>,
    resolver: Address,
)
    requires
        s.wf(),
        batch_payout_error(s, id, recipients, resolver) is None,
        s.markets[id].total_shares >= 0,
    ensures
        ({
            let m = s.markets[id];
            let w = m.market.winning_outcome as int;
            let transfers = payout_transfers(m, recipients);
            let pool = payout_pool(m.total_shares)->Ok_0;
            let after = payout_state(s, id, recipients).markets[id];
            &&& is_payout_pool(pool as int, m.total_shares as int)
            &&& transfers.len() == payees(m, recipients).len()
            &&& forall|i: int|
                0 <= i < transfers.len() ==> {
                    let a = transfers[i].to->Account_0;
                    &&& pays_share(#[trigger] transfers[i], m, pool as int)
                    &&& recipients.contains(a)
                    &&& !after.positions[w].contains_key(a)
                    &&& flag_of(after.payout_claimed, a)
                }
            &&& forall|i: int, j: int|
                0 <= i < j < transfers.len() ==> (#[trigger] transfers[i]).to != (
                #[trigger] transfers[j]).to
            &&& forall|a: Address| #[trigger]
                recipients.contains(a) && m.positions[w].contains_key(a) && !flag_of(
                    m.payout_claimed,
                    a,
                ) ==> exists|i: int|
                    0 <= i < transfers.len() && (#[trigger] transfers[i]).to == Party::Account(a)
            &&& forall|a: Address| #[trigger]
                flag_of(m.payout_claimed, a) ==> forall|i: int|
                    0 <= i < transfers.len() ==> (#[trigger] transfers[i]).to != Party::Account(a)
        }),
{
    let m = s.markets[id];
    let w = m.market.winning_outcome as int;
    let entries = payees(m, recipients);
    let transfers = payout_transfers(m, recipients);
    let after = payout_state(s, id, recipients).markets[id];
    assert(m.wf());
    lemma_winners(m);
    lemma_payees(m, recipients);
    lemma_pool_is_divided_by_its_rate(m.total_shares);
    lemma_taken_out(winners(m), entries);
    assert(after.positions[w] == taken_out(winners(m), entries));
    assert forall|i: int| 0 <= i < transfers.len() implies {
        let a = transfers[i].to->Account_0;
        &&& pays_share(#[trigger] transfers[i], m, payout_pool(m.total_shares)->Ok_0 as int)
        &&& recipients.contains(a)
        &&& !after.positions[w].contains_key(a)
        &&& flag_of(after.payout_claimed, a)
    } by {
        lemma_payments_are_shares(m, entries, i);
        let a = entries[i].0;
        assert(m.positions[w].contains_key(a));
        lemma_payee_is_recipient(m, recipients, a);
        assert(among(entries, a));
        lemma_flagged(m.payout_claimed, entries, a);
    }
    assert forall|i: int, j: int| 0 <= i < j < transfers.len() implies (#[trigger] transfers[i]).to
        != (#[trigger] transfers[j]).to by {
        assert(entries[i].0 != entries[j].0);
    }
    assert forall|a: Address| #[trigger]
        recipients.contains(a) && m.positions[w].contains_key(a) && !flag_of(
            m.payout_claimed,
            a,
        ) implies exists|i: int|
        0 <= i < transfers.len() && (#[trigger] transfers[i]).to == Party::Account(a) by {
        lemma_recipient_is_payee(m, recipients, a);
        let i = choose|i: int| 0 <= i < entries.len() && (#[trigger] entries[i]).0 == a;
        assert(transfers[i].to == Party::Account(a));
    }
    assert forall|a: Address| #[trigger] flag_of(m.payout_claimed, a) implies forall|i: int|
        0 <= i < transfers.len() ==> (#[trigger] transfers[i]).to != Party::Account(a) by {
        lemma_payees_unclaimed(m, recipients, a);
        assert forall|i: int| 0 <= i < transfers.len() implies (#[trigger] transfers[i]).to
            != Party::Account(a) by {
            if entries[i].0 == a {
                assert(among(entries, a));
            }
        }
    }
}

proof fn lemma_payee_is_recipient(m: MarketState, recipients: Seq<Address>, address: Address)
    ensures
        among(payees(m, recipients), address) ==> recipients.contains(address),
    decreases recipients.len(),
{
    if recipients.len() > 0 {
        let front = recipients.drop_last();
        let before = payees(m, front);
        let after = payees(m, recipients);
        lemma_payee_is_recipient(m, front, address);
        if among(after, address) {
            let i = choose|i: int| 0 <= i < after.len() && (#[trigger] after[i]).0 == address;
            if i < before.len() {
                assert(before[i].0 == address);
                let j = choose|j: int| 0 <= j < front.len() && front[j] == address;
                assert(recipients[j] == address);
            } else {
                assert(recipients[recipients.len() - 1] == address);
            }
        }
    }
}

proof fn lemma_recipient_is_payee(m: MarketState, recipients: Seq<Address>, address: Address)
    requires
        m.wf(),
        recipients.contains(address),
        winners(m).contains_key(address),
        !flag_of(m.payout_claimed, address),
    ensures
        among(payees(m, recipients), address),
    decreases recipients.len(),
{
    let front = recipients.drop_last();
    let before = payees(m, front);
    let after = payees(m, recipients);
    lemma_winners(m);
    let k = choose|k: int| 0 <= k < recipients.len() && recipients[k] == address;
    if recipients.last() == address {
        if !among(before, address) {
            assert(after[before.len() as int].0 == address);
        }
    } else {
        assert(front[k] == address);
        lemma_recipient_is_payee(m, front, address);
    }
    if among(before, address) {
        let i = choose|i: int| 0 <= i < before.len() && (#[trigger] before[i]).0 == address;
        assert(after[i].0 == address);
    }
}

/// A claim on an original payout pays what is on record after a sweep, and
/// otherwise the part of the payout pool that the claimant has by its holding.
/// The holding is burned and the record spent, and the vault pays what was swept.
pub proof fn lemma_original_pays_share(s: ContractState, id: u64, claimant: Address)
    requires
        s.wf(),
        original_error(s, id, claimant) is None,
        s.markets[id].total_shares >= 0,
    ensures
        ({
            let m = s.markets[id];
            let w = m.market.winning_outcome as int;
            let paid = original_payout(m, claimant)->Ok_0;
            let pool = payout_pool(m.total_shares)->Ok_0;
            let t = after_original(s, id, claimant);
            let after = t.markets[id];
            &&& m.market.status == MarketStatus::Resolved
            &&& !s.config.locked
            &&& paid > 0
            &&& m.swept ==> {
                &&& m.original_payouts.contains_key(claimant)
                &&& paid == m.original_payouts[claimant]
                &&& after.original_payouts == m.original_payouts.insert(claimant, 0)
                &&& t.config.vault_balance == s.config.vault_balance - paid
            }
            &&& !m.swept ==> {
                &&& m.positions[w].contains_key(claimant)
                &&& is_payout_pool(pool as int, m.total_shares as int)
                &&& rounds_down(
                    paid as int,
                    m.positions[w][claimant] * pool,
                    m.outcome_shares[w] as int,
                )
                &&& after.original_payouts == m.original_payouts
                &&& t.config.vault_balance == s.config.vault_balance
            }
            &&& after.positions[w] == m.positions[w].remove(claimant)
            &&& after.winners_paid == m.winners_paid + 1
        }),
{
    let m = s.markets[id];
    assert(m.wf());
    lemma_winners(m);
    lemma_sole(m, claimant);
    lemma_pool_is_divided_by_its_rate(m.total_shares);
    if !m.swept {
        lemma_payout_rounds_down(
            winners(m)[claimant],
            payout_pool(m.total_shares)->Ok_0,
            winning_shares(m),
        );
    }
}

/// A sweep records for every winner the part of the payout pool that it has by
/// its holding, and puts the sum of what is not claimed into the vault.
pub proof fn lemma_sweep_records_shares(s: ContractState, now: u64, caller: Address, id: u64)
    requires
        s.wf(),
        sweep_error(s, now, caller, id) is None,
        s.markets[id].total_shares >= 0,
        winners(s.markets[id]).dom().len() > 0,
        forall|a: Address| !#[trigger] flag_of(s.markets[id].claimed, a),
    ensures
        ({
            let m = s.markets[id];
            let w = m.market.winning_outcome as int;
            let pool = payout_pool(m.total_shares)->Ok_0;
            let t = after_sweep(s, id);
            let record = t.markets[id].original_payouts;
            &&& is_payout_pool(pool as int, m.total_shares as int)
            &&& t.markets[id].swept
            &&& t.markets[id].positions == m.positions
            &&& record.dom() == m.positions[w].dom()
            &&& forall|a: Address| #[trigger]
                record.contains_key(a) ==> record[a] >= 0 && rounds_down(
                    record[a] as int,
                    m.positions[w][a] * pool,
                    m.outcome_shares[w] as int,
                )
            &&& unclaimed(m) == total(record)
            &&& t.config.vault_balance == s.config.vault_balance + total(record)
        }),
{
    let m = s.markets[id];
    assert(m.wf());
    lemma_winners(m);
    lemma_pool_is_divided_by_its_rate(m.total_shares);
    let record = after_sweep(s, id).markets[id].original_payouts;
    assert(record.dom() =~= winners(m).dom());
    assert forall|a: Address| #[trigger] record.contains_key(a) implies record[a] >= 0
        && rounds_down(
        record[a] as int,
        winners(m)[a] * payout_pool(m.total_shares)->Ok_0,
        winning_shares(m) as int,
    ) by {
        assert(winners(m).contains_key(a));
        lemma_share_is_payable(m, a);
        lemma_payout_rounds_down(
            winners(m)[a],
            payout_pool(m.total_shares)->Ok_0,
            winning_shares(m),
        );
    }
    let entries = ordered(winners(m));
    lemma_ordered_lists(winners(m));
    lemma_none_flagged(entries, m.claimed);
    lemma_owed_total(m);
}

/// What is on record for the holders of an outcome who are not flagged.
pub open spec fn recorded_for_unflagged(
    held: Map<Address, i128>,
    flags: Map<Address, bool>,
    record: Map<Address, i128>,
) -> Map<Address, i128> {
    Map::new(
        |a: Address| held.contains_key(a) && !(flags.contains_key(a) && flags[a]),
        |a: Address| record[a],
    )
}

/// A sweep puts into the vault the parts of exactly those winners who are not
/// flagged as having claimed.
pub proof fn lemma_sweep_skips_claimed(s: ContractState, now: u64, caller: Address, id: u64)
    requires
        s.wf(),
        sweep_error(s, now, caller, id) is None,
        winners(s.markets[id]).dom().len() > 0,
    ensures
        ({
            let m = s.markets[id];
            let t = after_sweep(s, id);
            t.config.vault_balance == s.config.vault_balance + total(
                recorded_for_unflagged(
                    m.positions[m.market.winning_outcome as int],
                    m.claimed,
                    t.markets[id].original_payouts,
                ),
            )
        }),
{
    let m = s.markets[id];
    assert(m.wf());
    lemma_winners(m);
    lemma_unclaimed_total(m);
    assert(after_sweep(s, id).markets[id].original_payouts == owed(m));
}

proof fn lemma_unclaimed_total(m: MarketState)
    requires
        m.wf(),
        winners(m).dom().finite(),
        winners(m).dom().len() > 0,
        payout_pool(m.total_shares) is Ok,
    ensures
        unclaimed(m) == total(recorded_for_unflagged(winners(m), m.claimed, owed(m))),
{
    let held = winners(m);
    let open = recorded_for_unflagged(held, m.claimed, owed(m));
    let entries = ordered(held);
    lemma_ordered_lists(held);
    let left = unflagged(entries, m.claimed);
    let transfers = payouts(
        left,
        m.market.token,
        payout_pool(m.total_shares)->Ok_0,
        winning_shares(m),
    );
    let due = Seq::new(left.len(), |i: int| (left[i].0, transfers[i].amount));
    assert forall|i: int| 0 <= i < due.len() implies open.contains_key((#[trigger] due[i]).0)
        && open[due[i].0] == due[i].1 by {
        let j = lemma_left_from(entries, m.claimed, i);
        assert(held.contains_key(entries[j].0));
    }
    assert forall|a: Address| #[trigger] open.contains_key(a) implies exists|i: int|
        0 <= i < due.len() && (#[trigger] due[i]).0 == a by {
        assert(held.contains_key(a));
        let j = choose|j: int| 0 <= j < entries.len() && (#[trigger] entries[j]).0 == a;
        let i = lemma_left_has(entries, m.claimed, j);
        assert(due[i].0 == a);
    }
    assert forall|i: int, j: int| 0 <= i < j < due.len() implies (#[trigger] due[i]).0.precedes(
        (#[trigger] due[j]).0,
    ) by {
        lemma_left_in_order(entries, m.claimed, i, j);
    }
    lemma_lists_total(due, open);
    lemma_same_total(due, transfers);
}

proof fn lemma_left_from(entries: Seq<(Address, i128)>, flags: Map<Address, bool>, i: int) -> (j:
    int)
    requires
        0 <= i < unflagged(entries, flags).len(),
    ensures
        0 <= j < entries.len(),
        entries[j] == unflagged(entries, flags)[i],
        !flag_of(flags, entries[j].0),
        i <= j,
    decreases entries.len(),
{
    let front = entries.drop_last();
    let before = unflagged(front, flags);
    lemma_left_length(front, flags);
    if i < before.len() {
        let j = lemma_left_from(front, flags, i);
        assert(front[j] == entries[j]);
        j
    } else {
        entries.len() - 1
    }
}

proof fn lemma_left_length(entries: Seq<(Address, i128)>, flags: Map<Address, bool>)
    ensures
        unflagged(entries, flags).len() <= entries.len(),
    decreases entries.len(),
{
    if entries.len() > 0 {
        lemma_left_length(entries.drop_last(), flags);
    }
}

proof fn lemma_left_has(entries: Seq<(Address, i128)>, flags: Map<Address, bool>, j: int) -> (i:
    int)
    requires
        0 <= j < entries.len(),
        !flag_of(flags, entries[j].0),
    ensures
        0 <= i < unflagged(entries, flags).len(),
        unflagged(entries, flags)[i] == entries[j],
    decreases entries.len(),
{
    let front = entries.drop_last();
    if j < entries.len() - 1 {
        assert(front[j] == entries[j]);
        lemma_left_has(front, flags, j)
    } else {
        unflagged(front, flags).len() as int
    }
}

proof fn lemma_left_in_order(
    entries: Seq<(Address, i128)>,
    flags: Map<Address, bool>,
    i: int,
    j: int,
)
    requires
        forall|k: int, l: int|
            0 <= k < l < entries.len() ==> (#[trigger] entries[k]).0.precedes(
                (#[trigger] entries[l]).0,
            ),
        0 <= i < j < unflagged(entries, flags).len(),
    ensures
        unflagged(entries, flags)[i].0.precedes(unflagged(entries, flags)[j].0),
    decreases entries.len(),
{
    let front = entries.drop_last();
    let n = entries.len() - 1;
    let before = unflagged(front, flags);
    if j < before.len() {
        assert forall|k: int, l: int| 0 <= k < l < front.len() implies (
        #[trigger] front[k]).0.precedes((#[trigger] front[l]).0) by {
            assert(entries[k].0.precedes(entries[l].0));
        }
        lemma_left_in_order(front, flags, i, j);
    } else {
        let k = lemma_left_from(front, flags, i);
        assert(front[k] == entries[k]);
        assert(entries[k].0.precedes(entries[n].0));
    }
}

/// What is paid to a list of holders falls short of their part of the pool by
/// less than one unit each.
proof fn lemma_payouts_reach(
    entries: Seq<(Address, i128)>,
    token: Address,
    pool: i128,
    stake: i128,
)
    requires
        stake > 0,
        pool >= 0,
        forall|i: int| 0 <= i < entries.len() ==> (#[trigger] entries[i]).1 >= 0,
        payable(entries, pool, stake),
    ensures
        paid_out(payouts(entries, token, pool, stake)) * stake >= pool * entries_total(entries)
            - entries.len() * (stake - 1),
    decreases entries.len(),
{
    let all = payouts(entries, token, pool, stake);
    if entries.len() > 0 {
        let front = entries.drop_last();
        let last = entries.last();
        let n = entries.len() as int;
        assert(last == entries[n - 1]);
        assert(payout(entries[n - 1].1, pool, stake) is Ok);
        assert forall|i: int| 0 <= i < front.len() implies (#[trigger] front[i]).1 >= 0 && payout(
            front[i].1,
            pool,
            stake,
        ) is Ok by {
            assert(front[i] == entries[i]);
        }
        lemma_payouts_reach(front, token, pool, stake);
        assert(all.drop_last() =~= payouts(front, token, pool, stake));
        lemma_payout_rounds_down(last.1, pool, stake);
        let before = paid_out(payouts(front, token, pool, stake));
        let x = all.last().amount as int;
        let h = last.1 as int;
        assert((before + x) * stake == before * stake + x * stake) by (nonlinear_arith);
        assert((x + 1) * stake == x * stake + stake) by (nonlinear_arith);
        assert(pool * (entries_total(front) + h) == pool * entries_total(front) + h * pool)
            by (nonlinear_arith);
        assert(n * (stake - 1) == (n - 1) * (stake - 1) + (stake - 1)) by (nonlinear_arith);
    } else {
        assert(pool * 0 == 0) by (nonlinear_arith);
        assert(0 * stake == 0 && 0 * (stake - 1) == 0) by (nonlinear_arith);
    }
}

/// Where the winners hold all winning shares, paying all of them pays the whole
/// payout pool, less what rounding leaves: under one unit per winner.
pub proof fn lemma_payouts_use_the_pool(m: MarketState)
    requires
        m.wf(),
        m.total_shares >= 0,
        winners(m).dom().len() > 0,
        total(m.positions[m.market.winning_outcome as int])
            == m.outcome_shares[m.market.winning_outcome as int],
        payout_pool(m.total_shares) is Ok,
        payable(ordered(winners(m)), payout_pool(m.total_shares)->Ok_0, winning_shares(m)),
    ensures
        ({
            let pool = payout_pool(m.total_shares)->Ok_0;
            let paid = paid_out(winner_payments(m));
            &&& is_payout_pool(pool as int, m.total_shares as int)
            &&& pool - winners(m).dom().len() < paid <= pool
        }),
{
    let entries = ordered(winners(m));
    let pool = payout_pool(m.total_shares)->Ok_0;
    let stake = winning_shares(m);
    lemma_winners(m);
    lemma_ordered_lists(winners(m));
    lemma_pool_is_divided_by_its_rate(m.total_shares);
    assert forall|i: int| 0 <= i < entries.len() implies (#[trigger] entries[i]).1 >= 0 by {
        assert(winners(m).contains_key(entries[i].0));
    }
    lemma_payouts_reach(entries, m.market.token, pool, stake);
    lemma_payouts_fit(entries, m.market.token, pool, stake);
    let paid = paid_out(winner_payments(m));
    let n = entries.len() as int;
    assert(paid > pool - n) by (nonlinear_arith)
        requires
            paid * stake >= pool * stake - n * (stake - 1),
            stake > 0,
            n > 0,
    ;
}

/// When a market with liquidity providers is resolved, its fee pool for them is
/// three percent of all that was paid in, rounded down, whoever paid it; nothing
/// is recorded where that is nothing, or where there are no providers.
pub proof fn lemma_providers_get_three_percent(
    s: ContractState,
    now: u64,
    resolver: Address,
    id: u64,
    outcome: u32,
)
    requires
        settle_error(s, now, id) is None || resolve_error(s, now, resolver, id, outcome) is None,
        s.markets[id].total_shares >= 0,
    ensures
        ({
            let m = s.markets[id];
            let after = concluded(s, now, id, outcome);
            &&& after.total_shares == m.total_shares
            &&& after.lp == m.lp
            &&& after.market.status == MarketStatus::Resolved && m.lp is Some && m.total_shares * 3
                >= 100 ==> (after.lp_fee_pool matches Some(fee) && rounds_down(
                fee as int,
                m.total_shares * 3,
                100,
            ))
            &&& after.market.status != MarketStatus::Resolved || m.lp is None || m.total_shares * 3
                < 100 ==> after.lp_fee_pool == m.lp_fee_pool
        }),
{
    let m = s.markets[id];
    lemma_scaled_rounds_down(m.total_shares as int, 3, 100);
}

/// A provider of liquidity is rewarded with the part of the fee pool that its
/// contribution is of all contributions, rounded down. The reward comes out of
/// the pool, the contribution is spent, and nobody else's is touched.
pub proof fn lemma_reward_is_proportional(s: ContractState, id: u64, provider: Address)
    requires
        s.wf(),
        reward_error(s, id, provider) is None,
    ensures
        ({
            let m = s.markets[id];
            let reward = lp_reward(m, provider)->Ok_0;
            let after = with_reward(m, provider, reward);
            &&& m.market.status == MarketStatus::Resolved
            &&& m.lp matches Some(given)
            &&& m.lp_fee_pool matches Some(pool)
            &&& given.contains_key(provider) && given[provider] > 0
            &&& reward > 0
            &&& rounds_down(reward as int, given[provider] * pool, total(given))
            &&& after.lp_fee_pool == Some((pool - reward) as i128)
            &&& 0 <= pool - reward
            &&& after.lp == Some(given.insert(provider, 0))
        }),
{
    let m = s.markets[id];
    assert(m.wf());
    let given = contributed(m);
    lemma_total_nonnegative(given);
    assert(given.contains_key(provider));
    lemma_scaled_rounds_down(given[provider] as int, m.lp_fee_pool->0 as int, total(given));
    let (c, pool, x, all) = (
        given[provider] as int,
        m.lp_fee_pool->0 as int,
        lp_reward(m, provider)->Ok_0 as int,
        total(given),
    );
    assert(x <= pool) by (nonlinear_arith)
        requires
            x * all <= c * pool,
            0 < c <= all,
            pool >= 0,
    ;
}

} // verus!
