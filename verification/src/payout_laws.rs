//! What holds across payments: batches, claims and payouts to recipients.
use vstd::prelude::*;

use crate::checked_math::{fits, lemma_quotient_fits};
use crate::fees::{dynamic_fee, lemma_fee_split_sum, lemma_paid_out_add, paid_out};
use crate::holdings::{
    amount_of, entries_total, flag_of, lemma_ordered, lemma_ordered_lists, ordered, total,
};
use crate::host::lists;
use crate::payouts::{
    after_batch, after_claim, after_payout, among, batch, batch_effects, batch_error, batch_len,
    batch_payments, batch_payout_error, batch_state, claim, claim_state, claims, fee_effects,
    flagged, lemma_listing_picks, lemma_payees, lemma_payouts_fit, lemma_picks_total,
    lemma_settled, lemma_sole, lemma_taken_out, lemma_winners, payable, payees, payout,
    payout_pool, payout_transfers, payouts, picks, settlement_fee, share_of, taken_out,
    vault_after, winners, winning_shares,
};
use crate::state::{ContractState, MarketState};
use crate::types::{Address, EffectsView, Error, Event, MarketStatus, Party, Transfer, BPS};

verus! {

/// Fee and payout pool together are the pool, less at most one unit that
/// rounding leaves.
pub proof fn lemma_pool_is_divided(pool: i128)
    requires
        pool >= 0,
        settlement_fee(pool) is Ok,
        payout_pool(pool) is Ok,
    ensures
        settlement_fee(pool)->Ok_0 >= 0,
        payout_pool(pool)->Ok_0 >= 0,
        pool - 1 <= settlement_fee(pool)->Ok_0 + payout_pool(pool)->Ok_0 <= pool,
{
    let p = pool as int;
    let bps = dynamic_fee(p);
    if p > 0 {
        assert(p * 150 / 1_000_000_000_000 >= 0);
    }
    assert(50 <= bps <= 200);
    assert(p * bps >= 0 && p * (10000 - bps) >= 0) by (nonlinear_arith)
        requires
            p >= 0,
            50 <= bps <= 200,
    ;
    assert(p * bps + p * (10000 - bps) == p * 10000) by (nonlinear_arith);
    lemma_quotient_fits(p * bps, BPS as int);
    lemma_quotient_fits(p * (10000 - bps), BPS as int);
}

/// A batch pays as many winners as it says, forgets them, and leaves the others
/// as they were, so that successive batches page through all winners and pay
/// none twice.
pub proof fn lemma_batch_pages(m: MarketState, batch_size: u32)
    requires
        m.wf(),
    ensures
        ({
            let paid = batch(m, batch_size);
            let after = after_batch(m, batch_size);
            &&& after.wf()
            &&& picks(paid, winners(m))
            &&& winners(after).submap_of(winners(m))
            &&& winners(after).dom().len() == winners(m).dom().len() - paid.len()
            &&& total(winners(after)) == total(winners(m)) - entries_total(paid)
            &&& forall|a: Address|
                #![trigger among(paid, a)]
                winners(m).contains_key(a) ==> (winners(after).contains_key(a) <==> !among(
                    paid,
                    a,
                ))
        }),
{
    let held = winners(m);
    let paid = batch(m, batch_size);
    let after = after_batch(m, batch_size);
    lemma_winners(m);
    lemma_ordered_lists(held);
    lemma_listing_picks(ordered(held), held, batch_len(m, batch_size));
    lemma_taken_out(held, paid);
    lemma_settled(m, paid);
    if paid.len() > 0 {
        assert(winners(after) == taken_out(held, paid));
        lemma_taken_out_count(held, paid);
        assert forall|a: Address| #![trigger among(paid, a)] held.contains_key(a) implies (winners(
            after,
        ).contains_key(a) <==> !among(paid, a)) by {
            assert(taken_out(held, paid).contains_key(a) <==> held.contains_key(a) && forall|i: int|
                0 <= i < paid.len() ==> (#[trigger] paid[i]).0 != a);
        }
    } else {
        assert(taken_out(held, paid) == held);
    }
}

proof fn lemma_taken_out_count(held: Map<Address, i128>, entries: Seq<(Address, i128)>)
    requires
        held.dom().finite(),
        picks(entries, held),
    ensures
        taken_out(held, entries).dom().len() == held.dom().len() - entries.len(),
    decreases entries.len(),
{
    if entries.len() > 0 {
        let front = entries.drop_last();
        let n = entries.len() as int;
        assert(picks(front, held)) by {
            assert forall|i: int| 0 <= i < front.len() implies held.contains_key(
                (#[trigger] front[i]).0,
            ) && held[front[i].0] == front[i].1 by {
                assert(front[i] == entries[i]);
            }
            assert forall|i: int, j: int| 0 <= i < j < front.len() implies (#[trigger] front[i]).0
                != (#[trigger] front[j]).0 by {
                assert(front[i] == entries[i] && front[j] == entries[j]);
            }
        }
        lemma_taken_out_count(held, front);
        lemma_taken_out(held, front);
        let last = entries.last().0;
        assert(entries.last() == entries[n - 1]);
        assert(taken_out(held, front).contains_key(last)) by {
            assert forall|i: int| 0 <= i < front.len() implies (#[trigger] front[i]).0 != last by {
                assert(front[i] == entries[i]);
            }
        }
        assert(taken_out(held, entries).dom() =~= taken_out(held, front).dom().remove(last));
    }
}

/// Taking the first winners out of holdings leaves the others in their order.
proof fn lemma_rest_ordered(held: Map<Address, i128>, n: int)
    requires
        held.dom().finite(),
        0 <= n <= ordered(held).len(),
    ensures
        ordered(taken_out(held, ordered(held).take(n))) == ordered(held).skip(n),
{
    let all = ordered(held);
    let rest = taken_out(held, all.take(n));
    let left = all.skip(n);
    lemma_ordered_lists(held);
    lemma_listing_picks(all, held, n);
    lemma_taken_out(held, all.take(n));
    assert forall|i: int| 0 <= i < left.len() implies rest.contains_key((#[trigger] left[i]).0)
        && rest[left[i].0] == left[i].1 by {
        assert(left[i] == all[i + n]);
        assert(held.contains_key(all[i + n].0));
        assert forall|j: int| 0 <= j < all.take(n).len() implies (#[trigger] all.take(n)[j]).0
            != left[i].0 by {
            assert(all.take(n)[j] == all[j]);
            assert(all[j].0.precedes(all[i + n].0));
        }
    }
    assert forall|a: Address| #[trigger] rest.contains_key(a) implies exists|i: int|
        0 <= i < left.len() && (#[trigger] left[i]).0 == a by {
        assert(held.contains_key(a));
        let j = choose|j: int| 0 <= j < all.len() && (#[trigger] all[j]).0 == a;
        if j < n {
            assert(all.take(n)[j].0 == a);
        } else {
            assert(left[j - n].0 == a);
        }
    }
    assert forall|i: int, j: int| 0 <= i < j < left.len() implies (#[trigger] left[i]).0.precedes(
        (#[trigger] left[j]).0,
    ) by {
        assert(left[i] == all[i + n] && left[j] == all[j + n]);
    }
    lemma_ordered(left, rest);
}

/// The contract after successive batches.
pub open spec fn batches(s: ContractState, id: u64, sizes: Seq<u32>) -> ContractState
    decreases sizes.len(),
{
    if sizes.len() == 0 {
        s
    } else {
        batch_state(batches(s, id, sizes.drop_last()), id, sizes.last())
    }
}

/// None of successive batches, each at its time, is refused.
pub open spec fn batches_taken(
    s: ContractState,
    times: Seq<u64>,
    id: u64,
    sizes: Seq<u32>,
) -> bool
    decreases sizes.len(),
{
    sizes.len() > 0 ==> {
        &&& batches_taken(s, times, id, sizes.drop_last())
        &&& batch_error(
            batches(s, id, sizes.drop_last()),
            times[sizes.len() - 1],
            id,
            sizes.last(),
        ) is None
    }
}

/// The number of winners that successive batches pay.
pub open spec fn batches_len(s: ContractState, id: u64, sizes: Seq<u32>) -> int
    decreases sizes.len(),
{
    if sizes.len() == 0 {
        0
    } else {
        batches_len(s, id, sizes.drop_last()) + batch_len(
            batches(s, id, sizes.drop_last()).markets[id],
            sizes.last(),
        )
    }
}

/// What successive batches ask of the ledger.
pub open spec fn batches_effects(s: ContractState, id: u64, sizes: Seq<u32>) -> EffectsView
    decreases sizes.len(),
{
    if sizes.len() == 0 {
        EffectsView { transfers: seq![], events: seq![] }
    } else {
        batches_effects(s, id, sizes.drop_last()).and(
            batch_effects(batches(s, id, sizes.drop_last()), id, sizes.last()),
        )
    }
}

/// The sum of batch sizes.
pub open spec fn asked(sizes: Seq<u32>) -> int
    decreases sizes.len(),
{
    if sizes.len() == 0 {
        0
    } else {
        asked(sizes.drop_last()) + sizes.last()
    }
}

/// The payments to all winners of a market, in the ledger's order.
pub open spec fn winner_payments(m: MarketState) -> Seq<Transfer> {
    payouts(
        ordered(winners(m)),
        m.market.token,
        payout_pool(m.total_shares)->Ok_0,
        winning_shares(m),
    )
}

/// What successive batches do with the settlement fee: the first that pays
/// anybody shares it out, where that has not been done before.
pub open spec fn run_fee(s: ContractState, id: u64, n: int) -> EffectsView {
    if n == 0 {
        EffectsView { transfers: seq![], events: seq![] }
    } else {
        fee_effects(s, s.markets[id], settlement_fee(s.markets[id].total_shares)->Ok_0)->Ok_0
    }
}

/// A contract after the first winners of a market, so many of them, have been
/// paid: those who are left are in their order, and nothing else has changed but
/// the count of winners paid, the settlement fee, and what is on record and in
/// the vault after a sweep.
pub open spec fn paid_first(s: ContractState, t: ContractState, id: u64, n: int) -> bool {
    let m = s.markets[id];
    let after = t.markets[id];
    let fee = settlement_fee(m.total_shares);
    let paid = paid_out(winner_payments(m).take(n));
    &&& t.wf()
    &&& t == s.with_vault(t.config.vault_balance).with_market(id, after)
    &&& 0 <= n <= winner_payments(m).len()
    &&& ordered(winners(after)) == ordered(winners(m)).skip(n)
    &&& after == (MarketState {
        positions: m.positions.update(m.market.winning_outcome as int, winners(after)),
        original_payouts: after.original_payouts,
        winners_paid: (m.winners_paid + n) as u32,
        settlement_fee_paid: m.settlement_fee_paid || n > 0 && fee->Ok_0 > 0,
        ..m
    })
    &&& m.winners_paid + n <= u32::MAX
    &&& t.config.vault_balance == vault_after(s.config.vault_balance, m, paid)
    &&& m.swept ==> fits(s.config.vault_balance - paid)
    &&& n > 0 ==> fee is Ok && payout_pool(m.total_shares) is Ok && fee_effects(
        s,
        m,
        fee->Ok_0,
    ) is Ok
    &&& payable(
        ordered(winners(m)).take(n),
        payout_pool(m.total_shares)->Ok_0,
        winning_shares(m),
    )
}

/// A batch pays the first winners.
proof fn lemma_batch_pays_first(s: ContractState, now: u64, id: u64, size: u32)
    requires
        s.wf(),
        batch_error(s, now, id, size) is None,
    ensures
        paid_first(s, batch_state(s, id, size), id, batch_len(s.markets[id], size)),
        batch_effects(s, id, size).transfers == winner_payments(s.markets[id]).take(
            batch_len(s.markets[id], size),
        ) + run_fee(s, id, batch_len(s.markets[id], size)).transfers,
        batch_effects(s, id, size).events == run_fee(
            s,
            id,
            batch_len(s.markets[id], size),
        ).events,
{
    let m = s.markets[id];
    let n = batch_len(m, size);
    let t = batch_state(s, id, size);
    let all = winner_payments(m);
    assert(m.wf());
    lemma_winners(m);
    lemma_ordered_lists(winners(m));
    lemma_rest_ordered(winners(m), n);
    lemma_batch_pages(m, size);
    assert(t =~= s.with_vault(t.config.vault_balance).with_market(id, t.markets[id]));
    assert(batch_payments(m, size) =~= all.take(n));
    if n == 0 {
        assert(all.take(0) =~= Seq::empty());
        assert(ordered(winners(m)).skip(0) =~= ordered(winners(m)));
    }
    let after = t.markets[id];
    assert(m.positions.update(m.market.winning_outcome as int, winners(after))
        =~= after.positions);
    assert(batch_effects(s, id, size).transfers =~= all.take(n) + run_fee(s, id, n).transfers);
    assert(batch_effects(s, id, size).events =~= run_fee(s, id, n).events);
}

/// Paying the first winners, and then the first of those who are left, is paying
/// the first winners.
proof fn lemma_paid_first_on(
    s: ContractState,
    t: ContractState,
    u: ContractState,
    id: u64,
    n: int,
    k: int,
)
    requires
        s.wf(),
        s.markets.contains_key(id),
        paid_first(s, t, id, n),
        paid_first(t, u, id, k),
    ensures
        paid_first(s, u, id, n + k),
        winner_payments(t.markets[id]) == winner_payments(s.markets[id]).skip(n),
{
    let m = s.markets[id];
    let held = ordered(winners(m));
    let all = winner_payments(m);
    let rest = winner_payments(t.markets[id]);
    assert(m.wf());
    assert(m.market.winning_outcome < m.positions.len());
    assert(rest =~= all.skip(n));
    assert(held.skip(n).skip(k) =~= held.skip(n + k));
    assert(all.take(n) + rest.take(k) =~= all.take(n + k));
    lemma_paid_out_add(all.take(n), rest.take(k));
    assert forall|i: int| 0 <= i < held.take(n + k).len() implies payout(
        (#[trigger] held.take(n + k)[i]).1,
        payout_pool(m.total_shares)->Ok_0,
        winning_shares(m),
    ) is Ok by {
        if i < n {
            assert(held.take(n)[i] == held.take(n + k)[i]);
        } else {
            assert(held.skip(n).take(k)[i - n] == held.take(n + k)[i]);
        }
    }
    assert(u =~= s.with_vault(u.config.vault_balance).with_market(id, u.markets[id]));
    assert(u.markets[id].positions =~= m.positions.update(
        m.market.winning_outcome as int,
        winners(u.markets[id]),
    ));
}

/// The number of winners that the first of several batches pays.
pub open spec fn first_len(m: MarketState, sizes: Seq<u32>) -> int {
    if sizes.len() == 0 {
        0
    } else {
        batch_len(m, sizes[0])
    }
}

proof fn lemma_batches_state(s: ContractState, times: Seq<u64>, id: u64, sizes: Seq<u32>)
    requires
        s.wf(),
        s.markets.contains_key(id),
        batches_taken(s, times, id, sizes),
    ensures
        batches_len(s, id, sizes) == (if asked(sizes) < winner_payments(s.markets[id]).len() {
            asked(sizes)
        } else {
            winner_payments(s.markets[id]).len() as int
        }),
        paid_first(s, batches(s, id, sizes), id, batches_len(s, id, sizes)),
        0 <= first_len(s.markets[id], sizes) <= batches_len(s, id, sizes),
    decreases sizes.len(),
{
    let m = s.markets[id];
    let held = ordered(winners(m));
    let all = winner_payments(m);
    assert(m.wf());
    lemma_asked(sizes);
    if sizes.len() == 0 {
        assert(held.skip(0) =~= held);
        assert(all.take(0) =~= Seq::empty());
        assert(m.positions.update(m.market.winning_outcome as int, winners(m)) =~= m.positions);
        assert(s =~= s.with_vault(s.config.vault_balance).with_market(id, m));
    } else {
        let front = sizes.drop_last();
        let last = sizes.last();
        lemma_asked(front);
        lemma_batches_state(s, times, id, front);
        let before = batches(s, id, front);
        let n = batches_len(s, id, front);
        let k = batch_len(before.markets[id], last);
        lemma_batch_pays_first(before, times[sizes.len() - 1], id, last);
        lemma_paid_first_on(s, before, batches(s, id, sizes), id, n, k);
    }
}

/// The settlement fee of a batch that follows others which paid somebody is
/// nothing.
proof fn lemma_fee_was_paid(s: ContractState, t: ContractState, id: u64, n: int, k: int)
    requires
        paid_first(s, t, id, n),
        n > 0,
    ensures
        run_fee(t, id, k).transfers == Seq::<Transfer>::empty(),
        run_fee(t, id, k).events == Seq::<Event>::empty(),
{
}

/// The settlement fee of a batch where nobody was paid before.
proof fn lemma_fee_is_due(s: ContractState, t: ContractState, id: u64, k: int)
    requires
        paid_first(s, t, id, 0),
    ensures
        run_fee(t, id, k) == run_fee(s, id, k),
{
}

proof fn lemma_batches_effects(s: ContractState, times: Seq<u64>, id: u64, sizes: Seq<u32>)
    requires
        s.wf(),
        s.markets.contains_key(id),
        batches_taken(s, times, id, sizes),
    ensures
        ({
            let all = winner_payments(s.markets[id]);
            let n = batches_len(s, id, sizes);
            let first = first_len(s.markets[id], sizes);
            &&& batches_effects(s, id, sizes).transfers == all.take(first) + run_fee(
                s,
                id,
                n,
            ).transfers + all.subrange(first, n)
            &&& batches_effects(s, id, sizes).events == run_fee(s, id, n).events
        }),
    decreases sizes.len(),
{
    let all = winner_payments(s.markets[id]);
    let first = first_len(s.markets[id], sizes);
    lemma_batches_state(s, times, id, sizes);
    if sizes.len() == 0 {
        assert(all.take(0) + run_fee(s, id, 0).transfers + all.subrange(0, 0) =~= Seq::empty());
    } else {
        let front = sizes.drop_last();
        let before = batches(s, id, front);
        let n = batches_len(s, id, front);
        let k = batch_len(before.markets[id], sizes.last());
        lemma_batches_state(s, times, id, front);
        lemma_batches_effects(s, times, id, front);
        lemma_batch_pays_first(before, times[sizes.len() - 1], id, sizes.last());
        lemma_paid_first_on(s, before, batches(s, id, sizes), id, n, k);
        let rest = winner_payments(before.markets[id]);
        assert(rest.take(k) =~= all.subrange(n, n + k));
        let earlier = run_fee(s, id, n);
        let later = run_fee(before, id, k);
        let fee = run_fee(s, id, n + k);
        if n > 0 {
            lemma_fee_was_paid(s, before, id, n, k);
            assert(fee == earlier);
            if front.len() > 0 {
                assert(front[0] == sizes[0]);
            }
            let start = all.take(first) + earlier.transfers;
            assert(start + all.subrange(first, n) + (all.subrange(n, n + k) + later.transfers)
                =~= start + all.subrange(first, n + k));
            assert(earlier.events + later.events =~= fee.events);
        } else {
            lemma_fee_is_due(s, before, id, k);
            if front.len() > 0 {
                assert(front[0] == sizes[0]);
                lemma_taken_sizes(s, times, id, sizes, 0);
                assert(k == 0);
            }
            assert(first == k);
            let nothing = Seq::<Transfer>::empty();
            assert(all.take(0) + earlier.transfers + all.subrange(0, 0) =~= nothing);
            assert(all.subrange(0, k) =~= all.take(first));
            assert(nothing + (all.take(first) + fee.transfers) =~= all.take(first) + fee.transfers
                + all.subrange(first, k));
            assert(earlier.events + later.events =~= fee.events);
        }
    }
}

/// Any sequence of batches, whatever their sizes, pays the winners in turn, each
/// exactly its share of the payout pool and once. Together the batches pay as
/// many winners as their sizes add up to, or all there are; the settlement fee
/// is shared out once, after the payments of the first batch; and the next
/// batch goes on where the last one stopped.
pub proof fn lemma_batches_pay_in_turn(
    s: ContractState,
    times: Seq<u64>,
    id: u64,
    sizes: Seq<u32>,
)
    requires
        s.wf(),
        s.markets.contains_key(id),
        batches_taken(s, times, id, sizes),
    ensures
        ({
            let all = winner_payments(s.markets[id]);
            let n = batches_len(s, id, sizes);
            let first = first_len(s.markets[id], sizes);
            let fee = run_fee(s, id, n);
            let effects = batches_effects(s, id, sizes);
            &&& n == if asked(sizes) < all.len() {
                asked(sizes)
            } else {
                all.len() as int
            }
            &&& paid_first(s, batches(s, id, sizes), id, n)
            &&& effects.transfers == all.take(first) + fee.transfers + all.subrange(first, n)
            &&& effects.events == fee.events
        }),
{
    lemma_batches_state(s, times, id, sizes);
    lemma_batches_effects(s, times, id, sizes);
}

/// A batch that is taken has a size.
proof fn lemma_taken_sizes(s: ContractState, times: Seq<u64>, id: u64, sizes: Seq<u32>, i: int)
    requires
        batches_taken(s, times, id, sizes),
        0 <= i < sizes.len(),
    ensures
        sizes[i] > 0,
    decreases sizes.len(),
{
    if i < sizes.len() - 1 {
        lemma_taken_sizes(s, times, id, sizes.drop_last(), i);
    }
}

/// Batches together ask for no less than the first of them.
proof fn lemma_asked(sizes: Seq<u32>)
    ensures
        asked(sizes) >= 0,
        sizes.len() > 0 ==> asked(sizes) >= sizes[0],
    decreases sizes.len(),
{
    if sizes.len() > 0 {
        lemma_asked(sizes.drop_last());
    }
}

/// Whatever their sizes, batches take no more than the pool: the winners get no
/// more than the payout pool, and with the fee no more leaves than was paid in.
pub proof fn lemma_batches_fit_the_pool(
    s: ContractState,
    times: Seq<u64>,
    id: u64,
    sizes: Seq<u32>,
)
    requires
        s.wf(),
        s.markets.contains_key(id),
        batches_taken(s, times, id, sizes),
        s.markets[id].total_shares >= 0,
    ensures
        ({
            let m = s.markets[id];
            let n = batches_len(s, id, sizes);
            let to_winners = paid_out(winner_payments(m).take(n));
            let fee = paid_out(run_fee(s, id, n).transfers);
            &&& paid_out(batches_effects(s, id, sizes).transfers) == to_winners + fee
            &&& n > 0 ==> 0 <= to_winners <= payout_pool(m.total_shares)->Ok_0
            &&& to_winners + fee <= m.total_shares
        }),
{
    let m = s.markets[id];
    let n = batches_len(s, id, sizes);
    let first = first_len(m, sizes);
    let held = ordered(winners(m));
    let all = winner_payments(m);
    let fee = run_fee(s, id, n).transfers;
    lemma_batches_state(s, times, id, sizes);
    lemma_batches_effects(s, times, id, sizes);
    lemma_paid_out_add(all.take(first) + fee, all.subrange(first, n));
    lemma_paid_out_add(all.take(first), fee);
    lemma_paid_out_add(all.take(first), all.subrange(first, n));
    assert(all.take(first) + all.subrange(first, n) =~= all.take(n));
    if n > 0 {
        let pool = payout_pool(m.total_shares)->Ok_0;
        assert(m.wf());
        lemma_winners(m);
        lemma_ordered_lists(winners(m));
        lemma_listing_picks(held, winners(m), n);
        lemma_picks_total(m, held.take(n));
        lemma_pool_is_divided(m.total_shares);
        lemma_payouts_fit(held.take(n), m.market.token, pool, winning_shares(m));
        assert(payouts(held.take(n), m.market.token, pool, winning_shares(m)) =~= all.take(n));
        if fee.len() > 0 {
            lemma_fee_split_sum(s.config, settlement_fee(m.total_shares)->Ok_0, m.market.token);
        }
    }
}

/// What a list of transfers pays to an account.
pub open spec fn paid_to(transfers: Seq<Transfer>, account: Address) -> int
    decreases transfers.len(),
{
    if transfers.len() == 0 {
        0
    } else {
        paid_to(transfers.drop_last(), account) + if transfers.last().to == Party::Account(
            account,
        ) {
            transfers.last().amount as int
        } else {
            0
        }
    }
}

/// An account to which no part of the fees goes.
pub open spec fn takes_no_fee(s: ContractState, account: Address) -> bool {
    &&& s.config.treasury != Some(account)
    &&& s.config.lp_address != Some(account)
    &&& s.config.burn_address != Some(account)
}

/// What two lists of transfers pay to an account adds up.
pub proof fn lemma_paid_to_add(left: Seq<Transfer>, right: Seq<Transfer>, account: Address)
    ensures
        paid_to(left + right, account) == paid_to(left, account) + paid_to(right, account),
    decreases right.len(),
{
    if right.len() == 0 {
        assert(left + right =~= left);
    } else {
        assert((left + right).drop_last() =~= left + right.drop_last());
        lemma_paid_to_add(left, right.drop_last(), account);
    }
}

/// Transfers to others pay an account nothing.
pub proof fn lemma_paid_to_others(transfers: Seq<Transfer>, account: Address)
    requires
        forall|i: int|
            0 <= i < transfers.len() ==> (#[trigger] transfers[i]).to != Party::Account(account),
    ensures
        paid_to(transfers, account) == 0,
    decreases transfers.len(),
{
    if transfers.len() > 0 {
        let front = transfers.drop_last();
        assert forall|i: int| 0 <= i < front.len() implies (#[trigger] front[i]).to
            != Party::Account(account) by {
            assert(front[i] == transfers[i]);
        }
        lemma_paid_to_others(front, account);
        assert(transfers[transfers.len() - 1].to != Party::Account(account));
    }
}

/// One transfer pays its recipient its amount.
pub proof fn lemma_paid_to_alone(transfer: Transfer)
    ensures
        transfer.to matches Party::Account(account) ==> paid_to(seq![transfer], account)
            == transfer.amount,
{
    assert(seq![transfer].drop_last() =~= Seq::empty());
    reveal_with_fuel(paid_to, 2);
}

/// Sharing out a fee pays nothing to an account that takes no fee.
proof fn lemma_fee_passes(s: ContractState, m: MarketState, fee: i128, account: Address)
    requires
        takes_no_fee(s, account),
        fee_effects(s, m, fee) is Ok,
    ensures
        paid_to(fee_effects(s, m, fee)->Ok_0.transfers, account) == 0,
{
    lemma_paid_to_others(fee_effects(s, m, fee)->Ok_0.transfers, account);
}

/// Any sequence of batches pays each of the winners whose turn has come its
/// share of the payout pool, exactly and once, and the others nothing.
pub proof fn lemma_batches_pay_each_once(
    s: ContractState,
    times: Seq<u64>,
    id: u64,
    sizes: Seq<u32>,
    i: int,
)
    requires
        s.wf(),
        s.markets.contains_key(id),
        batches_taken(s, times, id, sizes),
        0 <= i < ordered(winners(s.markets[id])).len(),
        takes_no_fee(s, ordered(winners(s.markets[id]))[i].0),
    ensures
        ({
            let m = s.markets[id];
            let winner = ordered(winners(m))[i].0;
            let turn_has_come = i < batches_len(s, id, sizes);
            &&& winners(m).contains_key(winner)
            &&& winners(batches(s, id, sizes).markets[id]).contains_key(winner) == !turn_has_come
            &&& turn_has_come ==> share_of(m, winner) is Ok
            &&& paid_to(batches_effects(s, id, sizes).transfers, winner) == if turn_has_come {
                share_of(m, winner)->Ok_0 as int
            } else {
                0
            }
        }),
{
    let m = s.markets[id];
    let held = ordered(winners(m));
    let winner = held[i].0;
    let all = winner_payments(m);
    let n = batches_len(s, id, sizes);
    let first = first_len(m, sizes);
    let fee = run_fee(s, id, n).transfers;
    let left = winners(batches(s, id, sizes).markets[id]);
    lemma_batches_state(s, times, id, sizes);
    lemma_batches_effects(s, times, id, sizes);
    assert(m.wf());
    lemma_winners(m);
    lemma_ordered_lists(winners(m));
    assert(winners(m).contains_key(winner));
    assert(batches(s, id, sizes).markets.contains_key(id));
    lemma_winners(batches(s, id, sizes).markets[id]);
    lemma_ordered_lists(left);
    if i >= n {
        assert(held.skip(n)[i - n] == held[i]);
        assert(left.contains_key(ordered(left)[i - n].0));
    } else if left.contains_key(winner) {
        let j = choose|j: int| 0 <= j < ordered(left).len() && (#[trigger] ordered(left)[j]).0
            == winner;
        assert(held.skip(n)[j] == held[j + n]);
        assert(held[i].0.precedes(held[j + n].0));
    }
    lemma_paid_to_add(all.take(first) + fee, all.subrange(first, n), winner);
    lemma_paid_to_add(all.take(first), fee, winner);
    lemma_paid_to_add(all.take(first), all.subrange(first, n), winner);
    assert(all.take(first) + all.subrange(first, n) =~= all.take(n));
    if n > 0 {
        lemma_fee_passes(s, m, settlement_fee(m.total_shares)->Ok_0, winner);
    } else {
        assert(fee.len() == 0);
    }
    lemma_paid_in_place(held, winners(m), all, n, i);
    if i < n {
        assert(held.take(n)[i] == held[i]);
    }
}

/// The first payments of a listing pay a holder its own, if they get that far.
proof fn lemma_paid_in_place(
    entries: Seq<(Address, i128)>,
    held: Map<Address, i128>,
    payments: Seq<Transfer>,
    n: int,
    i: int,
)
    requires
        lists(entries, held),
        payments.len() == entries.len(),
        forall|j: int|
            0 <= j < payments.len() ==> (#[trigger] payments[j]).to == Party::Account(
                entries[j].0,
            ),
        0 <= n <= entries.len(),
        0 <= i < entries.len(),
    ensures
        paid_to(payments.take(n), entries[i].0) == if i < n {
            payments[i].amount as int
        } else {
            0
        },
{
    let account = entries[i].0;
    assert forall|j: int| 0 <= j < entries.len() && j != i implies (#[trigger] payments[j]).to
        != Party::Account(account) by {
        if j < i {
            assert(entries[j].0.precedes(entries[i].0));
        } else {
            assert(entries[i].0.precedes(entries[j].0));
        }
    }
    if i < n {
        let before = payments.take(i);
        let one = seq![payments[i]];
        let after = payments.subrange(i + 1, n);
        assert(payments.take(n) =~= before + one + after);
        lemma_paid_to_add(before + one, after, account);
        lemma_paid_to_add(before, one, account);
        lemma_paid_to_others(before, account);
        lemma_paid_to_others(after, account);
        lemma_paid_to_alone(payments[i]);
    } else {
        lemma_paid_to_others(payments.take(n), account);
    }
}

/// What a claimant can claim from a market: its share of the payout pool by what
/// it holds of the winning shares, and nothing where there is no such market or
/// it is not resolved.
pub open spec fn claimable(s: ContractState, id: u64, claimant: Address) -> int {
    let m = s.markets[id];
    if !s.markets.contains_key(id) || m.market.status != MarketStatus::Resolved || s.config.locked
        || amount_of(winners(m), claimant) == 0 || share_of(m, claimant)->Ok_0 <= 0 {
        0
    } else {
        share_of(m, claimant)->Ok_0 as int
    }
}

/// What a claimant can claim from several markets, each counted once.
pub open spec fn claimable_from(s: ContractState, ids: Seq<u64>, claimant: Address) -> int
    decreases ids.len(),
{
    if ids.len() == 0 {
        0
    } else {
        claimable_from(s, ids.drop_last(), claimant) + if ids.drop_last().contains(ids.last()) {
            0
        } else {
            claimable(s, ids.last(), claimant)
        }
    }
}

/// There is nothing to claim from a market.
spec fn nothing_to_claim(s: ContractState, id: u64, claimant: Address) -> bool {
    claim(s, id, claimant) == Ok::<Option<(i128, EffectsView)>, Error>(None)
}

/// One claim of several.
proof fn lemma_claim_step(s: ContractState, id: u64, claimant: Address)
    requires
        s.wf(),
        claim(s, id, claimant) matches Ok(Some(_)),
    ensures
        ({
            let (paid, effects) = claim(s, id, claimant)->Ok_0->0;
            let t = claim_state(s, id, claimant);
            &&& t.wf()
            &&& s.markets.contains_key(id)
            &&& paid > 0
            &&& claimable(s, id, claimant) == paid
            &&& takes_no_fee(s, claimant) ==> paid_to(effects.transfers, claimant) == paid
            &&& nothing_to_claim(t, id, claimant)
        }),
{
    let m = s.markets[id];
    let (paid, effects) = claim(s, id, claimant)->Ok_0->0;
    assert(m.wf());
    lemma_sole(m, claimant);
    assert(winners(after_claim(m, claimant)) == winners(m).remove(claimant));
    let transfer = Transfer::pay(m.market.token, claimant, paid);
    let fee = settlement_fee(m.total_shares)->Ok_0;
    lemma_paid_to_alone(transfer);
    lemma_paid_to_add(seq![transfer], fee_effects(s, m, fee)->Ok_0.transfers, claimant);
    if takes_no_fee(s, claimant) {
        lemma_fee_passes(s, m, fee, claimant);
    }
}

proof fn lemma_claims(s: ContractState, ids: Seq<u64>, claimant: Address)
    requires
        s.wf(),
        claims(s, ids, claimant) is Ok,
    ensures
        ({
            let (t, sum, effects) = claims(s, ids, claimant)->Ok_0;
            &&& t.wf()
            &&& t == ContractState { markets: t.markets, ..s.with_vault(t.config.vault_balance) }
            &&& t.markets.dom() =~= s.markets.dom()
            &&& forall|id: u64|
                !ids.contains(id) || claimable(s, id, claimant) == 0 ==> (
                #[trigger] t.markets[id]) == s.markets[id]
            &&& forall|id: u64|
                ids.contains(id) ==> #[trigger] nothing_to_claim(t, id, claimant)
            &&& sum == claimable_from(s, ids, claimant)
            &&& takes_no_fee(s, claimant) ==> paid_to(effects.transfers, claimant) == sum
        }),
    decreases ids.len(),
{
    if ids.len() > 0 {
        let front = ids.drop_last();
        let last = ids.last();
        lemma_claims(s, front, claimant);
        let (t, sum, effects) = claims(s, front, claimant)->Ok_0;
        assert forall|id: u64| #[trigger] ids.contains(id) <==> (front.contains(id) || id
            == last) by {
            if ids.contains(id) && id != last {
                let i = choose|i: int| 0 <= i < ids.len() && ids[i] == id;
                assert(front[i] == id);
            }
            if front.contains(id) {
                let i = choose|i: int| 0 <= i < front.len() && front[i] == id;
                assert(ids[i] == id);
            }
            assert(ids[ids.len() - 1] == last);
        }
        if front.contains(last) {
            assert(nothing_to_claim(t, last, claimant));
        } else {
            assert(t.markets[last] == s.markets[last]);
        }
        if claim(t, last, claimant)->Ok_0 is Some {
            lemma_claim_step(t, last, claimant);
            let (paid, more) = claim(t, last, claimant)->Ok_0->0;
            let u = claim_state(t, last, claimant);
            lemma_paid_to_add(effects.transfers, more.transfers, claimant);
            assert forall|id: u64| ids.contains(id) implies #[trigger] nothing_to_claim(
                u,
                id,
                claimant,
            ) by {
                if id != last {
                    assert(nothing_to_claim(t, id, claimant));
                    assert(u.markets[id] == t.markets[id]);
                }
            }
        }
    }
}

proof fn lemma_nothing_left(s: ContractState, ids: Seq<u64>, claimant: Address)
    requires
        forall|i: int| 0 <= i < ids.len() ==> nothing_to_claim(s, #[trigger] ids[i], claimant),
    ensures
        claims(s, ids, claimant) == Ok::<(ContractState, i128, EffectsView), Error>(
            (s, 0, EffectsView { transfers: seq![], events: seq![] }),
        ),
    decreases ids.len(),
{
    if ids.len() > 0 {
        let front = ids.drop_last();
        assert forall|i: int| 0 <= i < front.len() implies nothing_to_claim(
            s,
            #[trigger] front[i],
            claimant,
        ) by {
            assert(front[i] == ids[i]);
        }
        lemma_nothing_left(s, front, claimant);
        assert(nothing_to_claim(s, ids[ids.len() - 1], claimant));
    }
}

/// Claims from several markets return the sum of what is claimable from each of
/// them, a market that is named twice counted once and one that is missing, not
/// resolved or lost skipped and left as it was. A claimant to whom no fee goes is
/// paid exactly that sum. The same claims again return nothing, ask nothing of
/// the ledger and change nothing.
pub proof fn lemma_bulk_claim_sums_up(s: ContractState, ids: Seq<u64>, claimant: Address)
    requires
        s.wf(),
        claims(s, ids, claimant) is Ok,
    ensures
        ({
            let (t, sum, effects) = claims(s, ids, claimant)->Ok_0;
            &&& sum == claimable_from(s, ids, claimant)
            &&& takes_no_fee(s, claimant) ==> paid_to(effects.transfers, claimant) == sum
            &&& t.markets.dom() == s.markets.dom()
            &&& forall|id: u64|
                !ids.contains(id) || claimable(s, id, claimant) == 0 ==> (
                #[trigger] t.markets[id]) == s.markets[id]
            &&& claims(t, ids, claimant) == Ok::<(ContractState, i128, EffectsView), Error>(
                (t, 0, EffectsView { transfers: seq![], events: seq![] }),
            )
        }),
{
    lemma_claims(s, ids, claimant);
    let t = claims(s, ids, claimant)->Ok_0.0;
    assert forall|i: int| 0 <= i < ids.len() implies nothing_to_claim(
        t,
        #[trigger] ids[i],
        claimant,
    ) by {
        assert(ids.contains(ids[i]));
    }
    lemma_nothing_left(t, ids, claimant);
}

/// A market from which a claimant was paid has nothing more for that claimant.
pub proof fn lemma_claimed_once(s: ContractState, id: u64, claimant: Address)
    requires
        s.wf(),
        claim(s, id, claimant) matches Ok(Some(_)),
    ensures
        claim(claim_state(s, id, claimant), id, claimant) == Ok::<
            Option<(i128, EffectsView)>,
            Error,
        >(None),
{
    lemma_claim_step(s, id, claimant);
}

/// A payout to recipients pays no more than the payout pool.
pub proof fn lemma_payout_fits_the_pool(
    s: ContractState,
    id: u64,
    recipients: Seq<Address>,
    resolver: Address,
)
    requires
        s.wf(),
        batch_payout_error(s, id, recipients, resolver) is None,
        payout_pool(s.markets[id].total_shares)->Ok_0 >= 0,
    ensures
        0 <= paid_out(payout_transfers(s.markets[id], recipients)) <= payout_pool(
            s.markets[id].total_shares,
        )->Ok_0,
{
    let m = s.markets[id];
    assert(m.wf());
    lemma_winners(m);
    lemma_payees(m, recipients);
    lemma_picks_total(m, payees(m, recipients));
    lemma_payouts_fit(
        payees(m, recipients),
        m.market.token,
        payout_pool(m.total_shares)->Ok_0,
        winning_shares(m),
    );
}

/// Flags are set for the holders of a list.
pub proof fn lemma_flagged(
    flags: Map<Address, bool>,
    entries: Seq<(Address, i128)>,
    address: Address,
)
    ensures
        flag_of(flagged(flags, entries), address) == (flag_of(flags, address) || among(
            entries,
            address,
        )),
    decreases entries.len(),
{
    if entries.len() > 0 {
        let front = entries.drop_last();
        let n = entries.len() as int;
        lemma_flagged(flags, front, address);
        if among(front, address) {
            let i = choose|i: int| 0 <= i < front.len() && (#[trigger] front[i]).0 == address;
            assert(entries[i].0 == address);
        }
        if among(entries, address) && entries.last().0 != address {
            let i = choose|i: int| 0 <= i < entries.len() && (#[trigger] entries[i]).0 == address;
            assert(front[i].0 == address);
        }
        if entries.last().0 == address {
            assert(entries[n - 1].0 == address);
        }
    }
}

/// Whoever is flagged as paid is no payee.
pub proof fn lemma_payees_unclaimed(m: MarketState, recipients: Seq<Address>, address: Address)
    requires
        flag_of(m.payout_claimed, address),
    ensures
        !among(payees(m, recipients), address),
    decreases recipients.len(),
{
    if recipients.len() > 0 {
        lemma_payees_unclaimed(m, recipients.drop_last(), address);
        let before = payees(m, recipients.drop_last());
        let after = payees(m, recipients);
        if among(after, address) {
            let i = choose|i: int| 0 <= i < after.len() && (#[trigger] after[i]).0 == address;
            if i < before.len() {
                assert(before[i].0 == address);
            }
        }
    }
}

/// A recipient who was paid is not paid again, by whatever payout follows.
pub proof fn lemma_paid_once(
    m: MarketState,
    recipients: Seq<Address>,
    again: Seq<Address>,
    address: Address,
)
    requires
        among(payees(m, recipients), address),
    ensures
        flag_of(after_payout(m, recipients).payout_claimed, address),
        !among(payees(after_payout(m, recipients), again), address),
{
    lemma_flagged(m.payout_claimed, payees(m, recipients), address);
    lemma_payees_unclaimed(after_payout(m, recipients), again, address);
}

} // verus!
