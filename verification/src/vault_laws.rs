//! What holds of unclaimed payouts: what is on record, what the vault holds, and
//! how winners are paid whichever way they take.
use vstd::prelude::*;

use crate::access::role_error;
use crate::checked_math::lemma_quotient_fits;
use crate::fees::{dynamic_fee, paid_out};
use crate::holdings::{
    amount_of, entries_total, flag_of, lemma_lists_total, lemma_ordered_lists, lemma_total_empty,
    lemma_total_insert, lemma_total_nonnegative, ordered, total,
};
use crate::payout_laws::lemma_batch_pages;
use crate::payouts::{
    after_batch, after_claim, after_payout, among, batch, batch_error, batch_payments,
    batch_payout_error, batch_state, claim, claim_state, lemma_listing_picks, lemma_payees,
    lemma_payouts_bounded, lemma_payouts_fit, lemma_picks_total, lemma_settled, lemma_sole,
    lemma_taken_out, lemma_winners, payable, payees, payout, payout_pool, payout_state,
    payout_transfers, payouts, picks, settled, share_of, sole, spent, taken_out, winners,
    winning_shares,
};
use crate::record_laws::in_order;
use crate::state::{ContractState, MarketState};
use crate::types::{
    Address, EffectsView, Error, MarketStatus, Role, Transfer, BPS, CLAIM_PERIOD,
    MAX_PAYOUT_RECIPIENTS,
};
use crate::vault::{
    after_original, after_sweep, original_error, original_payout, owed, sweep_error, swept,
    unclaimed, unflagged,
};

verus! {

/// What the vault owes on behalf of a market.
pub open spec fn reserve(m: MarketState) -> int {
    if m.swept {
        total(m.original_payouts)
    } else {
        0
    }
}

/// What the vault owes on behalf of all markets.
pub open spec fn reserves(markets: Map<u64, MarketState>) -> int
    decreases markets.dom().len(),
    when markets.dom().finite()
{
    if markets.dom().len() == 0 {
        0
    } else {
        let id = markets.dom().choose();
        reserve(markets[id]) + reserves(markets.remove(id))
    }
}

/// What is on record for the winners of a market: nothing before it is swept,
/// and afterwards their share of the payout pool for those who have not been
/// paid, and nothing for the others.
pub open spec fn recorded_payouts(m: MarketState) -> bool {
    &&& m.original_payouts.dom().finite()
    &&& forall|a: Address| #[trigger]
        m.original_payouts.contains_key(a) ==> m.original_payouts[a] >= 0
    &&& !m.swept ==> m.original_payouts =~= Map::empty()
    &&& m.swept ==> forall|a: Address| #[trigger]
        winners(m).contains_key(a) ==> m.original_payouts.contains_key(a) && share_of(m, a) == Ok::<
            i128,
            Error,
        >(m.original_payouts[a])
    &&& forall|a: Address|
        !winners(m).contains_key(a) ==> #[trigger] amount_of(m.original_payouts, a) == 0
}

/// The vault can pay everything that is on record.
pub open spec fn covered(s: ContractState) -> bool {
    &&& s.markets.dom().finite()
    &&& forall|id: u64| #[trigger] s.markets.contains_key(id) ==> recorded_payouts(s.markets[id])
    &&& s.config.vault_balance >= reserves(s.markets)
}

proof fn lemma_reserves_remove(markets: Map<u64, MarketState>, id: u64)
    requires
        markets.dom().finite(),
        markets.contains_key(id),
    ensures
        reserves(markets) == reserve(markets[id]) + reserves(markets.remove(id)),
    decreases markets.dom().len(),
{
    let a = markets.dom().choose();
    assert(markets.dom().len() != 0) by {
        if markets.dom().len() == 0 {
            markets.dom().lemma_len0_is_empty();
        }
    }
    if a != id {
        assert(markets.dom().contains(a));
        lemma_reserves_remove(markets.remove(a), id);
        lemma_reserves_remove(markets.remove(id), a);
        assert(markets.remove(a).remove(id) =~= markets.remove(id).remove(a));
    }
}

proof fn lemma_reserves_insert(markets: Map<u64, MarketState>, id: u64, m: MarketState)
    requires
        markets.dom().finite(),
    ensures
        markets.insert(id, m).dom().finite(),
        reserves(markets.insert(id, m)) == reserves(markets) + reserve(m) - if markets.contains_key(
            id,
        ) {
            reserve(markets[id])
        } else {
            0
        },
{
    let after = markets.insert(id, m);
    lemma_reserves_remove(after, id);
    if markets.contains_key(id) {
        lemma_reserves_remove(markets, id);
        assert(after.remove(id) =~= markets.remove(id));
    } else {
        assert(after.remove(id) =~= markets);
    }
}

proof fn lemma_reserves_nonnegative(markets: Map<u64, MarketState>)
    requires
        markets.dom().finite(),
        forall|id: u64| #[trigger] markets.contains_key(id) ==> recorded_payouts(markets[id]),
    ensures
        reserves(markets) >= 0,
    decreases markets.dom().len(),
{
    if markets.dom().len() > 0 {
        let id = markets.dom().choose();
        assert(markets.contains_key(id));
        lemma_total_nonnegative(markets[id].original_payouts);
        lemma_reserves_nonnegative(markets.remove(id));
    }
}

/// A change of a market that leaves alone whether it was swept and what is on
/// record for its winners leaves the vault able to pay.
pub proof fn lemma_change_keeps_cover(s: ContractState, id: u64, m: MarketState)
    requires
        covered(s),
        recorded_payouts(m),
        if s.markets.contains_key(id) {
            m.swept == s.markets[id].swept && m.original_payouts == s.markets[id].original_payouts
        } else {
            !m.swept
        },
    ensures
        covered(s.with_market(id, m)),
{
    lemma_reserves_insert(s.markets, id, m);
}

/// Spending records takes what they say out of the sum.
proof fn lemma_spent(
    record: Map<Address, i128>,
    entries: Seq<(Address, i128)>,
    payments: Seq<Transfer>,
)
    requires
        record.dom().finite(),
        payments.len() == entries.len(),
        forall|i: int, j: int|
            0 <= i < j < entries.len() ==> (#[trigger] entries[i]).0 != (#[trigger] entries[j]).0,
        forall|i: int|
            0 <= i < entries.len() ==> (#[trigger] payments[i]).amount == amount_of(
                record,
                entries[i].0,
            ),
    ensures
        ({
            let left = spent(record, entries);
            &&& left.dom().finite()
            &&& total(left) == total(record) - paid_out(payments)
            &&& forall|a: Address|
                among(entries, a) ==> #[trigger] left.contains_key(a) && left[a] == 0
            &&& forall|a: Address|
                !among(entries, a) ==> (#[trigger] left.contains_key(a) <==> record.contains_key(a))
            &&& forall|a: Address|
                !among(entries, a) && record.contains_key(a) ==> #[trigger] left[a] == record[a]
        }),
    decreases entries.len(),
{
    if entries.len() > 0 {
        let front = entries.drop_last();
        let last = entries.last().0;
        let n = entries.len() as int;
        assert forall|i: int, j: int| 0 <= i < j < front.len() implies (#[trigger] front[i]).0 != (
        #[trigger] front[j]).0 by {
            assert(front[i] == entries[i] && front[j] == entries[j]);
        }
        assert forall|i: int| 0 <= i < front.len() implies (
        #[trigger] payments.drop_last()[i]).amount == amount_of(record, front[i].0) by {
            assert(payments.drop_last()[i] == payments[i]);
        }
        lemma_spent(record, front, payments.drop_last());
        let before = spent(record, front);
        assert(entries.last() == entries[n - 1]);
        assert(payments.last() == payments[n - 1]);
        assert(!among(front, last)) by {
            assert forall|i: int| 0 <= i < front.len() implies (#[trigger] front[i]).0 != last by {
                assert(front[i] == entries[i]);
            }
        }
        assert(amount_of(before, last) == amount_of(record, last));
        lemma_total_insert(before, last, 0);
        assert forall|a: Address| #[trigger] among(entries, a) <==> (among(front, a) || a
            == last) by {
            if among(front, a) {
                let i = choose|i: int| 0 <= i < front.len() && (#[trigger] front[i]).0 == a;
                assert(entries[i].0 == a);
            }
            if among(entries, a) && a != last {
                let i = choose|i: int| 0 <= i < entries.len() && (#[trigger] entries[i]).0 == a;
                assert(front[i].0 == a);
            }
        }
        let after = spent(record, entries);
        assert forall|a: Address|
            among(entries, a) implies #[trigger] after.contains_key(a) && after[a] == 0 by {
            if a != last {
                assert(among(front, a));
                assert(before.contains_key(a));
            }
        }
        assert forall|a: Address| !among(entries, a) implies (#[trigger] after.contains_key(a)
            <==> record.contains_key(a)) by {
            assert(!among(front, a));
            assert(before.contains_key(a) <==> record.contains_key(a));
        }
        assert forall|a: Address|
            !among(entries, a) && record.contains_key(a) implies #[trigger] after[a]
            == record[a] by {
            assert(!among(front, a));
            assert(before[a] == record[a]);
        }
    }
}

/// What is paid to some winners out of the vault.
pub open spec fn drawn(m: MarketState, entries: Seq<(Address, i128)>) -> int {
    if m.swept {
        paid_out(
            payouts(
                entries,
                m.market.token,
                payout_pool(m.total_shares)->Ok_0,
                winning_shares(m),
            ),
        )
    } else {
        0
    }
}

/// Paying winners their shares takes just that out of what is on record.
proof fn lemma_settled_record(m: MarketState, entries: Seq<(Address, i128)>)
    requires
        m.wf(),
        recorded_payouts(m),
        picks(entries, winners(m)),
    ensures
        recorded_payouts(settled(m, entries)),
        reserve(settled(m, entries)) == reserve(m) - drawn(m, entries),
        0 <= drawn(m, entries) <= reserve(m),
{
    let after = settled(m, entries);
    let held = winners(m);
    lemma_winners(m);
    lemma_taken_out(held, entries);
    assert(winners(after) == taken_out(held, entries));
    assert forall|a: Address|
        held.contains_key(a) && !winners(after).contains_key(a) implies among(entries, a) by {
        if !among(entries, a) {
            assert(taken_out(held, entries).contains_key(a));
        }
    }
    assert forall|a: Address| winners(after).contains_key(a) implies held.contains_key(a)
        && held[a] == winners(after)[a] && !among(entries, a) by {
        assert(taken_out(held, entries).contains_key(a));
    }
    if m.swept {
        let record = m.original_payouts;
        let pool = payout_pool(m.total_shares)->Ok_0;
        let payments = payouts(entries, m.market.token, pool, winning_shares(m));
        assert forall|i: int| 0 <= i < entries.len() implies (#[trigger] payments[i]).amount
            == amount_of(record, entries[i].0) by {
            assert(held.contains_key(entries[i].0));
            assert(share_of(m, entries[i].0) == Ok::<i128, Error>(record[entries[i].0]));
        }
        lemma_spent(record, entries, payments);
        let left = after.original_payouts;
        assert forall|a: Address| #[trigger] left.contains_key(a) implies left[a] >= 0 by {
            if !among(entries, a) {
                assert(record.contains_key(a));
            }
        }
        assert forall|a: Address| #[trigger] winners(after).contains_key(a) implies
            left.contains_key(a) && share_of(after, a) == Ok::<i128, Error>(left[a]) by {
            assert(held.contains_key(a) && !among(entries, a));
            assert(record.contains_key(a) && share_of(m, a) == Ok::<i128, Error>(record[a]));
        }
        assert forall|a: Address| !winners(after).contains_key(a) implies #[trigger] amount_of(
            left,
            a,
        ) == 0 by {
            if !among(entries, a) {
                assert(!held.contains_key(a));
                assert(amount_of(record, a) == 0);
            } else {
                assert(left.contains_key(a));
            }
        }
        lemma_total_nonnegative(record);
        lemma_total_nonnegative(left);
        lemma_drawn(entries, payments, record);
    }
}

proof fn lemma_drawn(
    entries: Seq<(Address, i128)>,
    payments: Seq<Transfer>,
    record: Map<Address, i128>,
)
    requires
        payments.len() == entries.len(),
        forall|a: Address| #[trigger] record.contains_key(a) ==> record[a] >= 0,
        forall|i: int|
            0 <= i < entries.len() ==> (#[trigger] payments[i]).amount == amount_of(
                record,
                entries[i].0,
            ),
    ensures
        paid_out(payments) >= 0,
    decreases entries.len(),
{
    if entries.len() > 0 {
        let front = entries.drop_last();
        assert forall|i: int| 0 <= i < front.len() implies (
        #[trigger] payments.drop_last()[i]).amount == amount_of(record, front[i].0) by {
            assert(payments.drop_last()[i] == payments[i]);
        }
        lemma_drawn(front, payments.drop_last(), record);
        assert(payments.last() == payments[entries.len() - 1]);
        assert(amount_of(record, entries[entries.len() - 1].0) >= 0);
    }
}

/// What is paid to winners of a market is there, and paying it leaves what is on
/// record for the others.
proof fn lemma_payment_keeps_cover(
    s: ContractState,
    id: u64,
    entries: Seq<(Address, i128)>,
    after: MarketState,
)
    requires
        s.wf(),
        covered(s),
        s.markets.contains_key(id),
        picks(entries, winners(s.markets[id])),
        after.original_payouts == settled(s.markets[id], entries).original_payouts,
        after.swept == s.markets[id].swept,
        recorded_payouts(settled(s.markets[id], entries)) ==> recorded_payouts(after),
    ensures
        0 <= drawn(s.markets[id], entries) <= s.config.vault_balance,
        covered(
            s.with_vault(
                (s.config.vault_balance - drawn(s.markets[id], entries)) as i128,
            ).with_market(id, after),
        ),
{
    let m = s.markets[id];
    assert(m.wf());
    assert(recorded_payouts(m));
    lemma_settled_record(m, entries);
    lemma_reserves_remove(s.markets, id);
    lemma_reserves_nonnegative(s.markets.remove(id));
    lemma_reserves_insert(s.markets, id, after);
}

/// A sweep puts into the vault what it records for the winners: if the vault
/// could pay everything on record before, it can afterwards.
pub proof fn lemma_sweep_keeps_cover(s: ContractState, now: u64, caller: Address, id: u64)
    requires
        s.wf(),
        covered(s),
        sweep_error(s, now, caller, id) is None,
        s.markets[id].total_shares >= 0,
        in_order(s.markets[id]),
    ensures
        covered(after_sweep(s, id)),
        unclaimed(s.markets[id]) >= 0,
{
    let m = s.markets[id];
    let t = after_sweep(s, id);
    assert(m.wf());
    assert(recorded_payouts(m));
    lemma_winners(m);
    let held = winners(m);
    if held.dom().len() == 0 {
        assert(m.original_payouts =~= Map::empty());
        held.dom().lemma_len0_is_empty();
        lemma_total_empty();
        lemma_reserves_insert(s.markets, id, t.markets[id]);
    } else {
        let entries = ordered(held);
        let pool = payout_pool(m.total_shares)->Ok_0;
        let stake = winning_shares(m);
        lemma_ordered_lists(held);
        lemma_rest_nonnegative(m.total_shares);
        lemma_listing_picks(entries, held, entries.len() as int);
        assert(entries.take(entries.len() as int) =~= entries);
        assert forall|i: int| 0 <= i < entries.len() implies !flag_of(
            m.claimed,
            (#[trigger] entries[i]).0,
        ) by {
            assert(held.contains_key(entries[i].0));
        }
        lemma_none_flagged(entries, m.claimed);
        lemma_owed_total(m);
        lemma_picks_total(m, entries);
        lemma_payouts_fit(entries, m.market.token, pool, stake);
        lemma_swept_record(m);
        lemma_reserves_insert(s.markets, id, t.markets[id]);
    }
}

/// What a sweep puts on record is what the winners are owed.
proof fn lemma_swept_record(m: MarketState)
    requires
        m.wf(),
        recorded_payouts(m),
        !m.swept,
        payout_pool(m.total_shares)->Ok_0 >= 0,
        winners(m).dom().len() > 0 ==> payout_pool(m.total_shares) is Ok && payable(
            ordered(winners(m)),
            payout_pool(m.total_shares)->Ok_0,
            winning_shares(m),
        ),
    ensures
        recorded_payouts(swept(m)),
{
    let after = swept(m);
    lemma_winners(m);
    if winners(m).dom().len() == 0 {
        winners(m).dom().lemma_len0_is_empty();
    } else {
        lemma_owed_total(m);
        assert forall|a: Address| #[trigger] winners(after).contains_key(a) implies
            after.original_payouts.contains_key(a) && share_of(after, a) == Ok::<i128, Error>(
            after.original_payouts[a],
        ) by {
            lemma_share_is_payable(m, a);
        }
    }
}

/// Where every winner's share can be computed, so can one's.
pub proof fn lemma_share_is_payable(m: MarketState, winner: Address)
    requires
        m.wf(),
        winners(m).contains_key(winner),
        payout_pool(m.total_shares) is Ok,
        payable(
            ordered(winners(m)),
            payout_pool(m.total_shares)->Ok_0,
            winning_shares(m),
        ),
    ensures
        share_of(m, winner) is Ok,
{
    let entries = ordered(winners(m));
    lemma_winners(m);
    lemma_ordered_lists(winners(m));
    let i = choose|i: int| 0 <= i < entries.len() && (#[trigger] entries[i]).0 == winner;
    assert(payout(entries[i].1, payout_pool(m.total_shares)->Ok_0, winning_shares(m)) is Ok);
}

/// What is left of a pool for the winners is not negative.
proof fn lemma_rest_nonnegative(pool: i128)
    requires
        pool >= 0,
        payout_pool(pool) is Ok,
    ensures
        payout_pool(pool)->Ok_0 >= 0,
{
    let p = pool as int;
    let bps = dynamic_fee(p);
    if p > 0 {
        assert(p * 150 / 1_000_000_000_000 >= 0);
    }
    assert(p * (10000 - bps) >= 0) by (nonlinear_arith)
        requires
            p >= 0,
            50 <= bps <= 200,
    ;
    lemma_quotient_fits(p * (10000 - bps), BPS as int);
}

/// Where nobody of a list is flagged, all of it is left.
pub proof fn lemma_none_flagged(entries: Seq<(Address, i128)>, flags: Map<Address, bool>)
    requires
        forall|i: int| 0 <= i < entries.len() ==> !flag_of(flags, (#[trigger] entries[i]).0),
    ensures
        unflagged(entries, flags) == entries,
    decreases entries.len(),
{
    if entries.len() > 0 {
        let front = entries.drop_last();
        assert forall|i: int| 0 <= i < front.len() implies !flag_of(
            flags,
            (#[trigger] front[i]).0,
        ) by {
            assert(front[i] == entries[i]);
        }
        assert(entries.last() == entries[entries.len() - 1]);
        lemma_none_flagged(front, flags);
        assert(entries =~= front.push(entries.last()));
    }
}

/// What is owed to the winners adds up to what they are paid, and none is owed
/// less than nothing.
pub proof fn lemma_owed_total(m: MarketState)
    requires
        m.wf(),
        winners(m).dom().len() > 0,
        payout_pool(m.total_shares) is Ok,
        payout_pool(m.total_shares)->Ok_0 >= 0,
        payable(
            ordered(winners(m)),
            payout_pool(m.total_shares)->Ok_0,
            winning_shares(m),
        ),
    ensures
        owed(m).dom().finite(),
        forall|a: Address| #[trigger] owed(m).contains_key(a) ==> owed(m)[a] >= 0,
        total(owed(m)) == paid_out(
            payouts(
                ordered(winners(m)),
                m.market.token,
                payout_pool(m.total_shares)->Ok_0,
                winning_shares(m),
            ),
        ),
{
    let held = winners(m);
    let entries = ordered(held);
    let pool = payout_pool(m.total_shares)->Ok_0;
    let stake = winning_shares(m);
    lemma_winners(m);
    lemma_ordered_lists(held);
    let transfers = payouts(entries, m.market.token, pool, stake);
    let due = Seq::new(entries.len(), |i: int| (entries[i].0, transfers[i].amount));
    assert forall|i: int| 0 <= i < due.len() implies owed(m).contains_key((#[trigger] due[i]).0)
        && owed(m)[due[i].0] == due[i].1 by {
        assert(held.contains_key(entries[i].0));
    }
    assert forall|a: Address| #[trigger] owed(m).contains_key(a) implies exists|i: int|
        0 <= i < due.len() && (#[trigger] due[i]).0 == a by {
        assert(held.contains_key(a));
        let i = choose|i: int| 0 <= i < entries.len() && (#[trigger] entries[i]).0 == a;
        assert(due[i].0 == a);
    }
    assert forall|i: int, j: int| 0 <= i < j < due.len() implies (#[trigger] due[i]).0.precedes(
        (#[trigger] due[j]).0,
    ) by {
        assert(entries[i].0.precedes(entries[j].0));
    }
    lemma_lists_total(due, owed(m));
    lemma_same_total(due, transfers);
    assert forall|a: Address| #[trigger] owed(m).contains_key(a) implies owed(m)[a] >= 0 by {
        let i = choose|i: int| 0 <= i < entries.len() && (#[trigger] entries[i]).0 == a;
        assert(held.contains_key(a));
        let share = entries[i].1 as int;
        assert(payout(entries[i].1, pool, stake) is Ok);
        assert(share * pool >= 0) by (nonlinear_arith)
            requires
                share >= 0,
                pool >= 0,
        ;
        lemma_quotient_fits(share * pool, stake as int);
    }
}

/// Entries and transfers of the same amounts add up to the same.
pub proof fn lemma_same_total(due: Seq<(Address, i128)>, transfers: Seq<Transfer>)
    requires
        due.len() == transfers.len(),
        forall|i: int| 0 <= i < due.len() ==> (#[trigger] due[i]).1 == transfers[i].amount,
    ensures
        entries_total(due) == paid_out(transfers),
    decreases due.len(),
{
    if due.len() > 0 {
        assert forall|i: int| 0 <= i < due.drop_last().len() implies (
        #[trigger] due.drop_last()[i]).1 == transfers.drop_last()[i].amount by {
            assert(due.drop_last()[i] == due[i]);
        }
        assert(due[due.len() - 1].1 == transfers[due.len() - 1].amount);
        lemma_same_total(due.drop_last(), transfers.drop_last());
    }
}

/// A market is swept no sooner than 30 days after its resolution, and once.
pub proof fn lemma_sweep_waits(s: ContractState, now: u64, caller: Address, id: u64, later: u64)
    requires
        sweep_error(s, now, caller, id) is None,
    ensures
        s.markets[id].claim_deadline matches Some(t) && now >= t + CLAIM_PERIOD,
        sweep_error(after_sweep(s, id), later, caller, id) == Some(Error::AlreadySwept),
{
}

/// What one winner is paid.
proof fn lemma_sole_payment(m: MarketState, winner: Address)
    requires
        winners(m).contains_key(winner),
        share_of(m, winner) is Ok,
    ensures
        ({
            let pool = payout_pool(m.total_shares)->Ok_0;
            &&& payable(sole(m, winner), pool, winning_shares(m))
            &&& paid_out(payouts(sole(m, winner), m.market.token, pool, winning_shares(m)))
                == share_of(m, winner)->Ok_0
        }),
{
    let pool = payout_pool(m.total_shares)->Ok_0;
    let payments = payouts(sole(m, winner), m.market.token, pool, winning_shares(m));
    reveal_with_fuel(paid_out, 2);
    assert(payments.drop_last() =~= Seq::empty());
}

/// What is on record for a claimant is what the claimant's holding is worth,
/// whether the market was swept or not.
proof fn lemma_original_is_share(m: MarketState, claimant: Address)
    requires
        recorded_payouts(m),
        original_payout(m, claimant) matches Ok(paid) && paid > 0,
    ensures
        winners(m).contains_key(claimant),
        share_of(m, claimant) == original_payout(m, claimant),
{
    if m.swept {
        assert(amount_of(m.original_payouts, claimant) != 0);
        assert(winners(m).contains_key(claimant));
    }
}

/// A batch finds in the vault what it has to pay after a sweep, and the vault can
/// still pay everything else on record.
pub proof fn lemma_batch_keeps_cover(s: ContractState, now: u64, id: u64, batch_size: u32)
    requires
        s.wf(),
        covered(s),
    ensures
        batch_error(s, now, id, batch_size) != Some(Error::InsufficientVault),
        batch_error(s, now, id, batch_size) is None ==> covered(batch_state(s, id, batch_size)),
{
    if s.markets.contains_key(id) {
        let m = s.markets[id];
        let after = after_batch(m, batch_size);
        assert(m.wf());
        assert(recorded_payouts(m));
        lemma_batch_pages(m, batch_size);
        if batch(m, batch_size).len() > 0 {
            lemma_payment_keeps_cover(s, id, batch(m, batch_size), after);
        } else {
            lemma_change_keeps_cover(s, id, m);
            assert(batch_state(s, id, batch_size) =~= s.with_market(id, m));
        }
    }
}

/// A claim finds in the vault what it has to pay after a sweep, and the vault can
/// still pay everything else on record.
pub proof fn lemma_claim_keeps_cover(s: ContractState, id: u64, claimant: Address)
    requires
        s.wf(),
        covered(s),
    ensures
        claim(s, id, claimant) != Err::<Option<(i128, EffectsView)>, Error>(
            Error::InsufficientVault,
        ),
        claim(s, id, claimant) matches Ok(Some(_)) ==> covered(claim_state(s, id, claimant)),
{
    let m = s.markets[id];
    if s.markets.contains_key(id) && winners(m).contains_key(claimant) && share_of(
        m,
        claimant,
    ) is Ok {
        assert(m.wf());
        lemma_sole(m, claimant);
        lemma_sole_payment(m, claimant);
        lemma_payment_keeps_cover(s, id, sole(m, claimant), after_claim(m, claimant));
    }
}

/// A payout to recipients finds in the vault what it has to pay after a sweep,
/// and the vault can still pay everything else on record. So a resolver's payout
/// whose amounts can be computed and counted is refused only for too many
/// recipients, while the lock is held, before the market is resolved, during a
/// dispute, or when nobody is left to be paid.
pub proof fn lemma_payout_keeps_cover(
    s: ContractState,
    id: u64,
    recipients: Seq<Address>,
    resolver: Address,
)
    requires
        s.wf(),
        covered(s),
    ensures
        batch_payout_error(s, id, recipients, resolver) != Some(Error::InsufficientVault),
        batch_payout_error(s, id, recipients, resolver) is None ==> covered(
            payout_state(s, id, recipients),
        ),
        ({
            let m = s.markets[id];
            let pool = payout_pool(m.total_shares);
            let entries = payees(m, recipients);
            &&& role_error(s, resolver, Role::Resolver) is None
            &&& pool is Ok
            &&& payable(entries, pool->Ok_0, winning_shares(m))
            &&& m.winners_paid + entries.len() <= u32::MAX
        }) ==> (batch_payout_error(s, id, recipients, resolver) is None <==> {
            &&& !s.config.locked
            &&& recipients.len() <= MAX_PAYOUT_RECIPIENTS
            &&& s.markets.contains_key(id)
            &&& s.markets[id].market.status == MarketStatus::Resolved
            &&& !(s.markets[id].dispute matches Some(d) && d.active)
            &&& winners(s.markets[id]).dom().len() > 0
        }),
{
    if s.markets.contains_key(id) {
        let m = s.markets[id];
        assert(m.wf());
        lemma_winners(m);
        if winners(m).dom().len() == 0 {
            winners(m).dom().lemma_len0_is_empty();
            assert(winners(m) =~= Map::empty());
            lemma_total_empty();
        }
        lemma_payees(m, recipients);
        lemma_payment_keeps_cover(s, id, payees(m, recipients), after_payout(m, recipients));
    }
}

/// Claimants are protected: while the vault can pay everything on record,
/// whoever is owed something by a resolved market can withdraw exactly that, and
/// the vault can still pay everything else on record afterwards.
pub proof fn lemma_claimants_are_protected(s: ContractState, id: u64, claimant: Address)
    requires
        s.wf(),
        covered(s),
        !s.config.locked,
        s.markets.contains_key(id),
        s.markets[id].market.status == MarketStatus::Resolved,
        s.markets[id].winners_paid < u32::MAX,
        original_payout(s.markets[id], claimant) matches Ok(paid) && paid > 0,
    ensures
        original_error(s, id, claimant) is None,
        covered(after_original(s, id, claimant)),
        original_payout(s.markets[id], claimant) == share_of(s.markets[id], claimant),
{
    let m = s.markets[id];
    assert(m.wf());
    assert(recorded_payouts(m));
    lemma_original_is_share(m, claimant);
    lemma_sole(m, claimant);
    lemma_sole_payment(m, claimant);
    lemma_payment_keeps_cover(s, id, sole(m, claimant), settled(m, sole(m, claimant)));
}

/// A sweep takes nothing from those who have not been paid: what each can
/// withdraw is the same before and after it.
pub proof fn lemma_sweep_keeps_claims(
    s: ContractState,
    now: u64,
    caller: Address,
    id: u64,
    claimant: Address,
)
    requires
        s.wf(),
        recorded_payouts(s.markets[id]),
        sweep_error(s, now, caller, id) is None,
    ensures
        original_payout(after_sweep(s, id).markets[id], claimant) == original_payout(
            s.markets[id],
            claimant,
        ),
        winners(after_sweep(s, id).markets[id]) == winners(s.markets[id]),
{
    let m = s.markets[id];
    assert(m.wf());
    lemma_winners(m);
    if winners(m).dom().len() == 0 {
        winners(m).dom().lemma_len0_is_empty();
    } else if winners(m).contains_key(claimant) {
        lemma_share_is_payable(m, claimant);
    }
}

/// What is on record is paid once.
pub proof fn lemma_original_once(s: ContractState, id: u64, claimant: Address)
    requires
        s.wf(),
        original_error(s, id, claimant) is None,
    ensures
        original_error(after_original(s, id, claimant), id, claimant) == Some(
            if s.markets[id].swept {
                Error::AlreadyClaimed
            } else {
                Error::NoPayout
            },
        ),
{
    assert(s.markets[id].wf());
    lemma_sole(s.markets[id], claimant);
}

/// An address has been paid by a market, or never was to be: it holds nothing of
/// the winning outcome and nothing is on record for it.
pub open spec fn paid_off(m: MarketState, address: Address) -> bool {
    &&& !winners(m).contains_key(address)
    &&& original_payout(m, address) matches Ok(paid) ==> paid <= 0
}

/// Whoever is paid off gets nothing more, whichever way it is asked for.
pub proof fn lemma_paid_off_gets_nothing(
    s: ContractState,
    id: u64,
    address: Address,
    batch_size: u32,
    recipients: Seq<Address>,
)
    requires
        s.wf(),
        s.markets.contains_key(id),
        paid_off(s.markets[id], address),
    ensures
        !among(batch(s.markets[id], batch_size), address),
        !among(payees(s.markets[id], recipients), address),
        claim(s, id, address) == Ok::<Option<(i128, EffectsView)>, Error>(None),
        original_error(s, id, address) is Some,
{
    let m = s.markets[id];
    assert(m.wf());
    lemma_batch_pages(m, batch_size);
    lemma_payees(m, recipients);
    if among(batch(m, batch_size), address) {
        let e = batch(m, batch_size);
        let i = choose|i: int| 0 <= i < e.len() && (#[trigger] e[i]).0 == address;
        assert(winners(m).contains_key(e[i].0));
    }
    if among(payees(m, recipients), address) {
        let e = payees(m, recipients);
        let i = choose|i: int| 0 <= i < e.len() && (#[trigger] e[i]).0 == address;
        assert(winners(m).contains_key(e[i].0));
    }
}

/// Whoever is among winners that are paid is paid off, and whoever was paid off
/// before still is.
proof fn lemma_settled_pays_off(m: MarketState, entries: Seq<(Address, i128)>, address: Address)
    requires
        m.wf(),
        picks(entries, winners(m)),
        among(entries, address) || paid_off(m, address),
    ensures
        paid_off(settled(m, entries), address),
{
    let after = settled(m, entries);
    lemma_winners(m);
    lemma_taken_out(winners(m), entries);
    assert(winners(after) == taken_out(winners(m), entries));
    if among(entries, address) {
        let i = choose|i: int| 0 <= i < entries.len() && (#[trigger] entries[i]).0 == address;
        assert(!taken_out(winners(m), entries).contains_key(address));
    } else {
        assert(!taken_out(winners(m), entries).contains_key(address));
    }
    lemma_spent_one(m.original_payouts, entries, address);
}

/// What is spent of one record.
proof fn lemma_spent_one(
    record: Map<Address, i128>,
    entries: Seq<(Address, i128)>,
    address: Address,
)
    ensures
        spent(record, entries).contains_key(address) <==> record.contains_key(address) || among(
            entries,
            address,
        ),
        spent(record, entries).contains_key(address) ==> spent(record, entries)[address] == (
        if among(entries, address) {
            0
        } else {
            record[address]
        }),
    decreases entries.len(),
{
    if entries.len() > 0 {
        let front = entries.drop_last();
        lemma_spent_one(record, front, address);
        if among(front, address) {
            let i = choose|i: int| 0 <= i < front.len() && (#[trigger] front[i]).0 == address;
            assert(entries[i].0 == address);
        }
        if among(entries, address) && entries.last().0 != address {
            let i = choose|i: int| 0 <= i < entries.len() && (#[trigger] entries[i]).0 == address;
            assert(front[i].0 == address);
        }
        assert(entries.last() == entries[entries.len() - 1]);
    }
}

/// Everybody is paid one way only: whoever a batch pays, whoever a payout to
/// recipients pays, and whoever claims, one market or the original payout, is
/// paid off.
pub proof fn lemma_paid_one_way(
    s: ContractState,
    id: u64,
    address: Address,
    batch_size: u32,
    recipients: Seq<Address>,
)
    requires
        s.wf(),
        s.markets.contains_key(id),
    ensures
        ({
            let m = s.markets[id];
            &&& among(batch(m, batch_size), address) ==> paid_off(
                after_batch(m, batch_size),
                address,
            )
            &&& among(payees(m, recipients), address) ==> paid_off(
                after_payout(m, recipients),
                address,
            )
            &&& claim(s, id, address) matches Ok(Some(_)) ==> paid_off(
                after_claim(m, address),
                address,
            )
            &&& original_error(s, id, address) is None ==> paid_off(
                after_original(s, id, address).markets[id],
                address,
            )
        }),
{
    let m = s.markets[id];
    assert(m.wf());
    lemma_batch_pages(m, batch_size);
    lemma_payees(m, recipients);
    lemma_sole(m, address);
    assert(sole(m, address)[0].0 == address);
    if among(batch(m, batch_size), address) {
        lemma_settled_pays_off(m, batch(m, batch_size), address);
        assert(paid_off(after_batch(m, batch_size), address));
    }
    if among(payees(m, recipients), address) {
        lemma_settled_pays_off(m, payees(m, recipients), address);
        assert(paid_off(after_payout(m, recipients), address));
    }
    if claim(s, id, address) matches Ok(Some(_)) {
        lemma_settled_pays_off(m, sole(m, address), address);
        assert(paid_off(after_claim(m, address), address));
    }
}

/// Whoever is paid off stays so, whoever else is paid and whether the market is
/// swept or not.
pub proof fn lemma_paid_off_for_good(
    m: MarketState,
    address: Address,
    batch_size: u32,
    recipients: Seq<Address>,
    other: Address,
)
    requires
        m.wf(),
        recorded_payouts(m),
        paid_off(m, address),
    ensures
        paid_off(after_batch(m, batch_size), address),
        paid_off(after_payout(m, recipients), address),
        paid_off(after_claim(m, other), address),
        paid_off(settled(m, sole(m, other)), address),
        !m.swept ==> paid_off(swept(m), address),
{
    lemma_batch_pages(m, batch_size);
    lemma_payees(m, recipients);
    lemma_sole(m, other);
    lemma_settled_pays_off(m, batch(m, batch_size), address);
    lemma_settled_pays_off(m, payees(m, recipients), address);
    let after = settled(m, sole(m, other));
    assert(!winners(after).contains_key(address));
    lemma_spent_one(m.original_payouts, sole(m, other), address);
    assert(paid_off(after, address));
    assert(paid_off(after_payout(m, recipients), address));
    assert(paid_off(after_batch(m, batch_size), address));
    assert(paid_off(after_claim(m, other), address));
}

/// What a winner is owed does not depend on who else is paid before, which way,
/// or whether the market is swept: as long as the winner holds its position, its
/// share of the payout pool stays the same.
pub proof fn lemma_share_is_fixed(
    m: MarketState,
    after: MarketState,
    winner: Address,
    batch_size: u32,
    recipients: Seq<Address>,
    other: Address,
)
    requires
        m.wf(),
        after == after_batch(m, batch_size) || after == after_payout(m, recipients) || after
            == after_claim(m, other) || after == settled(m, sole(m, other)) || after == swept(m),
        winners(after).contains_key(winner),
    ensures
        winners(m).contains_key(winner),
        share_of(after, winner) == share_of(m, winner),
{
    lemma_winners(m);
    lemma_batch_pages(m, batch_size);
    lemma_payees(m, recipients);
    lemma_taken_out(winners(m), payees(m, recipients));
    lemma_sole(m, other);
    assert(winners(after).submap_of(winners(m)));
}

/// One way in which winners are paid, or what they are owed is set aside.
pub enum Step {
    /// A batch of at most so many winners.
    Batch(u32),
    /// A winner's own claim.
    Claim(Address),
    /// A claim on an original payout.
    Original(Address),
    /// A payout to recipients.
    Payout(Seq<Address>),
    /// A sweep, where there was none before.
    Sweep,
}

/// A claim pays something.
pub open spec fn claim_pays(m: MarketState, claimant: Address) -> bool {
    winners(m).contains_key(claimant) && share_of(m, claimant)->Ok_0 > 0
}

/// A claim on an original payout pays something.
pub open spec fn original_pays(m: MarketState, claimant: Address) -> bool {
    original_payout(m, claimant) matches Ok(paid) && paid > 0
}

/// What a step pays to winners.
pub open spec fn step_paid(m: MarketState, step: Step) -> int {
    match step {
        Step::Batch(size) => paid_out(batch_payments(m, size)),
        Step::Claim(claimant) => if claim_pays(m, claimant) {
            share_of(m, claimant)->Ok_0 as int
        } else {
            0
        },
        Step::Original(claimant) => if original_pays(m, claimant) {
            original_payout(m, claimant)->Ok_0 as int
        } else {
            0
        },
        Step::Payout(recipients) => paid_out(payout_transfers(m, recipients)),
        Step::Sweep => 0,
    }
}

/// The amounts of a step can be computed.
pub open spec fn step_payable(m: MarketState, step: Step) -> bool {
    match step {
        Step::Batch(size) => payable(
            batch(m, size),
            payout_pool(m.total_shares)->Ok_0,
            winning_shares(m),
        ),
        Step::Claim(claimant) => winners(m).contains_key(claimant) ==> share_of(
            m,
            claimant,
        ) is Ok,
        Step::Original(_) => true,
        Step::Payout(recipients) => payable(
            payees(m, recipients),
            payout_pool(m.total_shares)->Ok_0,
            winning_shares(m),
        ),
        Step::Sweep => payable(
            ordered(winners(m)),
            payout_pool(m.total_shares)->Ok_0,
            winning_shares(m),
        ),
    }
}

/// A market after a step.
pub open spec fn after_step(m: MarketState, step: Step) -> MarketState {
    match step {
        Step::Batch(size) => after_batch(m, size),
        Step::Claim(claimant) => if claim_pays(m, claimant) {
            after_claim(m, claimant)
        } else {
            m
        },
        Step::Original(claimant) => if original_pays(m, claimant) {
            settled(m, sole(m, claimant))
        } else {
            m
        },
        Step::Payout(recipients) => after_payout(m, recipients),
        Step::Sweep => if m.swept {
            m
        } else {
            swept(m)
        },
    }
}

/// What successive steps pay to winners.
pub open spec fn steps_paid(m: MarketState, steps: Seq<Step>) -> int
    decreases steps.len(),
{
    if steps.len() == 0 {
        0
    } else {
        step_paid(m, steps[0]) + steps_paid(after_step(m, steps[0]), steps.drop_first())
    }
}

/// The amounts of successive steps can be computed.
pub open spec fn steps_payable(m: MarketState, steps: Seq<Step>) -> bool
    decreases steps.len(),
{
    steps.len() > 0 ==> step_payable(m, steps[0]) && steps_payable(
        after_step(m, steps[0]),
        steps.drop_first(),
    )
}

/// However winners are paid, in batches of whatever sizes, as recipients, by
/// their own claims or from the record of a sweep, together they get no more than
/// the payout pool.
pub proof fn lemma_winners_share_the_pool(m: MarketState, steps: Seq<Step>)
    requires
        m.wf(),
        recorded_payouts(m),
        payout_pool(m.total_shares) is Ok,
        payout_pool(m.total_shares)->Ok_0 >= 0,
        steps_payable(m, steps),
    ensures
        0 <= steps_paid(m, steps) <= payout_pool(m.total_shares)->Ok_0,
{
    let pool = payout_pool(m.total_shares)->Ok_0 as int;
    let stake = winning_shares(m) as int;
    let held = total(winners(m));
    let paid = steps_paid(m, steps);
    lemma_winners(m);
    if winners(m).dom().len() == 0 {
        lemma_no_winners(m, steps);
    } else {
        lemma_steps_bounded(m, steps);
        assert(0 <= paid <= pool) by (nonlinear_arith)
            requires
                0 <= paid * stake <= pool * held,
                0 < held <= stake,
                pool >= 0,
        ;
    }
}

/// A market without winners pays none.
proof fn lemma_no_winners(m: MarketState, steps: Seq<Step>)
    requires
        m.wf(),
        recorded_payouts(m),
        payout_pool(m.total_shares)->Ok_0 >= 0,
        winners(m).dom().len() == 0,
    ensures
        steps_paid(m, steps) == 0,
    decreases steps.len(),
{
    if steps.len() > 0 {
        lemma_winners(m);
        lemma_ordered_lists(winners(m));
        winners(m).dom().lemma_len0_is_empty();
        match steps[0] {
            Step::Batch(size) => {
                assert(batch(m, size).len() == 0);
            },
            Step::Claim(_) => {},
            Step::Original(claimant) => {
                if original_pays(m, claimant) {
                    lemma_original_is_share(m, claimant);
                }
            },
            Step::Payout(recipients) => {
                lemma_payees(m, recipients);
                let entries = payees(m, recipients);
                if entries.len() > 0 {
                    assert(winners(m).contains_key(entries[0].0));
                }
                lemma_settled_record(m, entries);
                lemma_settled(m, entries);
                assert(winners(after_payout(m, recipients)) =~= winners(m));
            },
            Step::Sweep => {
                if !m.swept {
                    lemma_swept_record(m);
                }
            },
        }
        lemma_no_winners(after_step(m, steps[0]), steps.drop_first());
    }
}

/// Paying some winners their shares pays no more than the part of the pool that
/// they held of the winning shares.
proof fn lemma_settled_bounded(m: MarketState, entries: Seq<(Address, i128)>)
    requires
        m.wf(),
        winning_shares(m) > 0,
        payout_pool(m.total_shares)->Ok_0 >= 0,
        picks(entries, winners(m)),
        payable(entries, payout_pool(m.total_shares)->Ok_0, winning_shares(m)),
    ensures
        ({
            let pool = payout_pool(m.total_shares)->Ok_0;
            let stake = winning_shares(m);
            0 <= paid_out(payouts(entries, m.market.token, pool, stake)) * stake <= pool * (total(
                winners(m),
            ) - total(winners(settled(m, entries))))
        }),
{
    lemma_winners(m);
    lemma_taken_out(winners(m), entries);
    lemma_picks_total(m, entries);
    lemma_payouts_bounded(
        entries,
        m.market.token,
        payout_pool(m.total_shares)->Ok_0,
        winning_shares(m),
    );
}

/// One step pays no more than the part of the pool that those it pays held of
/// the winning shares.
proof fn lemma_step_bounded(m: MarketState, step: Step)
    requires
        m.wf(),
        recorded_payouts(m),
        winning_shares(m) > 0,
        payout_pool(m.total_shares) is Ok,
        payout_pool(m.total_shares)->Ok_0 >= 0,
        step_payable(m, step),
    ensures
        after_step(m, step).wf(),
        recorded_payouts(after_step(m, step)),
        after_step(m, step).market == m.market,
        after_step(m, step).total_shares == m.total_shares,
        after_step(m, step).outcome_shares == m.outcome_shares,
        0 <= step_paid(m, step) * winning_shares(m) <= payout_pool(m.total_shares)->Ok_0 * (total(
            winners(m),
        ) - total(winners(after_step(m, step)))),
{
    let pool = payout_pool(m.total_shares)->Ok_0;
    let stake = winning_shares(m);
    lemma_winners(m);
    assert(0 * stake == 0) by (nonlinear_arith);
    assert(pool * 0 == 0) by (nonlinear_arith);
    match step {
        Step::Batch(size) => {
            lemma_batch_pages(m, size);
            if batch(m, size).len() > 0 {
                lemma_settled_bounded(m, batch(m, size));
                lemma_settled_record(m, batch(m, size));
            }
        },
        Step::Claim(claimant) => {
            if claim_pays(m, claimant) {
                lemma_sole(m, claimant);
                lemma_sole_payment(m, claimant);
                lemma_settled_bounded(m, sole(m, claimant));
                lemma_settled_record(m, sole(m, claimant));
            }
        },
        Step::Original(claimant) => {
            if original_pays(m, claimant) {
                lemma_original_is_share(m, claimant);
                lemma_sole(m, claimant);
                lemma_sole_payment(m, claimant);
                lemma_settled_bounded(m, sole(m, claimant));
                lemma_settled_record(m, sole(m, claimant));
            }
        },
        Step::Payout(recipients) => {
            lemma_payees(m, recipients);
            lemma_settled(m, payees(m, recipients));
            lemma_settled_bounded(m, payees(m, recipients));
            lemma_settled_record(m, payees(m, recipients));
        },
        Step::Sweep => {
            if !m.swept {
                lemma_swept_record(m);
            }
        },
    }
}

proof fn lemma_steps_bounded(m: MarketState, steps: Seq<Step>)
    requires
        m.wf(),
        recorded_payouts(m),
        winning_shares(m) > 0,
        payout_pool(m.total_shares) is Ok,
        payout_pool(m.total_shares)->Ok_0 >= 0,
        steps_payable(m, steps),
    ensures
        0 <= steps_paid(m, steps) * winning_shares(m) <= payout_pool(m.total_shares)->Ok_0 * total(
            winners(m),
        ),
    decreases steps.len(),
{
    let pool = payout_pool(m.total_shares)->Ok_0 as int;
    let stake = winning_shares(m) as int;
    lemma_winners(m);
    if steps.len() > 0 {
        let after = after_step(m, steps[0]);
        lemma_step_bounded(m, steps[0]);
        lemma_steps_bounded(after, steps.drop_first());
        let now = step_paid(m, steps[0]);
        let rest = steps_paid(after, steps.drop_first());
        let (before, left) = (total(winners(m)), total(winners(after)));
        assert((now + rest) * stake == now * stake + rest * stake) by (nonlinear_arith);
        assert(pool * (before - left) + pool * left == pool * before) by (nonlinear_arith);
    } else {
        assert(0 * stake == 0) by (nonlinear_arith);
        assert(pool * total(winners(m)) >= 0) by (nonlinear_arith)
            requires
                pool >= 0,
                total(winners(m)) >= 0,
        ;
    }
}

} // verus!
