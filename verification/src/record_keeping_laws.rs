//! What payments leave on the books: who is counted, what the vault paid, and
//! which entries belong to a market.
use vstd::prelude::*;

use crate::amount_laws::lemma_payout_rounds_down;
use crate::checked_math::{amount, fits, moment, quotient};
use crate::fee_laws::lemma_pool_is_divided_by_its_rate;
use crate::fees::{fee_split, paid_out};
use crate::holdings::{flag_of, lemma_ordered_lists, ordered, total};
use crate::payout_laws::lemma_batch_pages;
use crate::payouts::{
    batch, batch_effects, batch_error, batch_len, batch_payments, batch_payout_error, batch_state,
    claim, claim_state, claims, lemma_payees, lemma_sole, lemma_winners, payable, payees, payout,
    payout_pool, payout_state, payout_transfers, settlement_fee, share_of, winners,
    winning_shares,
};
use crate::queries::{entry_if, living_entries, market_entries, position_entries, user_entries};
use crate::state::{initial_config, ContractState, MarketState};
use crate::types::{
    AccessPlatformStatus, Address, DataKey, EffectsView, Entry, Error, FeeMode, MarketStatus,
    Transfer,
};
use crate::vault::{original_error, sweep_error, sweep_guard, unclaimed};

verus! {

/// A call leaves everything but one market and the vault as it was.
pub open spec fn only_market_and_vault(s: ContractState, t: ContractState, id: u64) -> bool {
    &&& t.markets.dom() == s.markets.dom()
    &&& forall|other: u64| other != id ==> (#[trigger] t.markets[other]) == s.markets[other]
    &&& t == s.with_vault(t.config.vault_balance).with_market(id, t.markets[id])
}

/// A batch counts those it pays. What it pays after a sweep comes out of the
/// vault, and otherwise the vault is left alone; so are other markets, and what is
/// not about payments.
pub proof fn lemma_batch_is_booked(s: ContractState, now: u64, id: u64, batch_size: u32)
    requires
        s.wf(),
        batch_error(s, now, id, batch_size) is None,
    ensures
        ({
            let m = s.markets[id];
            let t = batch_state(s, id, batch_size);
            let after = t.markets[id];
            let held = m.positions[m.market.winning_outcome as int];
            let n = if batch_size < held.dom().len() {
                batch_size as int
            } else {
                held.dom().len() as int
            };
            let paid = paid_out(batch_effects(s, id, batch_size).transfers.take(n));
            &&& only_market_and_vault(s, t, id)
            &&& batch(m, batch_size).len() == n
            &&& after.winners_paid == m.winners_paid + n
            &&& t.config.vault_balance == s.config.vault_balance - if m.swept {
                paid
            } else {
                0
            }
            &&& !m.swept ==> after.original_payouts == m.original_payouts
            &&& after.settlement_fee_paid == (m.settlement_fee_paid || n > 0 && settlement_fee(
                m.total_shares,
            )->Ok_0 > 0)
            &&& after == (MarketState {
                positions: after.positions,
                original_payouts: after.original_payouts,
                winners_paid: after.winners_paid,
                settlement_fee_paid: after.settlement_fee_paid,
                ..m
            })
        }),
{
    let m = s.markets[id];
    let t = batch_state(s, id, batch_size);
    assert(m.wf());
    lemma_winners(m);
    lemma_ordered_lists(winners(m));
    lemma_batch_pages(m, batch_size);
    let n = batch_len(m, batch_size);
    assert(t.markets.dom() =~= s.markets.dom());
    assert(t =~= s.with_vault(t.config.vault_balance).with_market(id, t.markets[id]));
    let transfers = batch_effects(s, id, batch_size).transfers;
    if n > 0 {
        assert(transfers.take(n) =~= batch_payments(m, batch_size));
    } else {
        assert(transfers.take(n) =~= Seq::empty());
    }
}

/// A batch is refused because of amounts only where the fee or the payout pool
/// cannot be computed, a payout does not fit, the winners cannot be counted, the
/// vault does not hold what was swept, or the fee that is due cannot be shared
/// out.
pub proof fn lemma_batch_is_taken(s: ContractState, now: u64, id: u64, batch_size: u32)
    requires
        s.wf(),
        s.markets.contains_key(id),
    ensures
        ({
            let m = s.markets[id];
            let fee = settlement_fee(m.total_shares);
            let pool = payout_pool(m.total_shares);
            let entries = batch(m, batch_size);
            batch_error(s, now, id, batch_size) is None <==> {
                &&& !s.config.locked
                &&& 1 <= batch_size <= 25
                &&& m.market.status == MarketStatus::Resolved
                &&& m.unlock_timestamp matches Some(t) ==> now >= t
                &&& entries.len() > 0 ==> {
                    &&& fee is Ok
                    &&& pool is Ok
                    &&& payable(entries, pool->Ok_0, winning_shares(m))
                    &&& m.winners_paid + entries.len() <= u32::MAX
                    &&& m.swept ==> paid_out(batch_payments(m, batch_size))
                        <= s.config.vault_balance && s.config.vault_balance - paid_out(
                        batch_payments(m, batch_size),
                    ) <= i128::MAX
                    &&& fee->Ok_0 > 0 && !m.settlement_fee_paid ==> fee_split(
                        s.config,
                        fee->Ok_0,
                        m.market.token,
                    ) is Ok
                }
            }
        }),
{
}

/// A claim counts the claimant, and comes out of the vault after a sweep; other
/// markets and what is not about payments are left alone.
pub proof fn lemma_claim_is_booked(s: ContractState, id: u64, claimant: Address)
    requires
        s.wf(),
        claim(s, id, claimant) matches Ok(Some(_)),
    ensures
        ({
            let m = s.markets[id];
            let t = claim_state(s, id, claimant);
            let after = t.markets[id];
            let (paid, _) = claim(s, id, claimant)->Ok_0->Some_0;
            &&& only_market_and_vault(s, t, id)
            &&& after.winners_paid == m.winners_paid + 1
            &&& t.config.vault_balance == s.config.vault_balance - if m.swept {
                paid as int
            } else {
                0
            }
            &&& m.swept ==> after.original_payouts == m.original_payouts.insert(claimant, 0)
            &&& !m.swept ==> after.original_payouts == m.original_payouts
            &&& after == (MarketState {
                positions: after.positions,
                original_payouts: after.original_payouts,
                winners_paid: after.winners_paid,
                settlement_fee_paid: after.settlement_fee_paid,
                ..m
            })
        }),
{
    let m = s.markets[id];
    let t = claim_state(s, id, claimant);
    assert(m.wf());
    lemma_sole(m, claimant);
    assert(t.markets.dom() =~= s.markets.dom());
    assert(t =~= s.with_vault(t.config.vault_balance).with_market(id, t.markets[id]));
}

/// A payout to recipients counts those it pays and flags them, and comes out of
/// the vault after a sweep; other markets and what is not about payments are left
/// alone.
pub proof fn lemma_payout_is_booked(
    s: ContractState,
    id: u64,
    recipients: Seq<Address>,
    resolver: Address,
)
    requires
        s.wf(),
        batch_payout_error(s, id, recipients, resolver) is None,
    ensures
        ({
            let m = s.markets[id];
            let t = payout_state(s, id, recipients);
            let after = t.markets[id];
            let transfers = payout_transfers(m, recipients);
            &&& only_market_and_vault(s, t, id)
            &&& after.winners_paid == m.winners_paid + transfers.len()
            &&& t.config.vault_balance == s.config.vault_balance - if m.swept {
                paid_out(transfers)
            } else {
                0
            }
            &&& !m.swept ==> after.original_payouts == m.original_payouts
            &&& after == (MarketState {
                positions: after.positions,
                original_payouts: after.original_payouts,
                winners_paid: after.winners_paid,
                payout_claimed: after.payout_claimed,
                ..m
            })
        }),
{
    let m = s.markets[id];
    let t = payout_state(s, id, recipients);
    assert(m.wf());
    lemma_payees(m, recipients);
    assert(t.markets.dom() =~= s.markets.dom());
    assert(t =~= s.with_vault(t.config.vault_balance).with_market(id, t.markets[id]));
}

/// Every payout of a market fits: that of any winner by what it holds.
pub open spec fn payouts_fit(m: MarketState) -> bool {
    let held = m.positions[m.market.winning_outcome as int];
    &&& 0 <= m.total_shares
    &&& m.total_shares * 10_000 <= i128::MAX
    &&& forall|a: Address| #[trigger]
        held.contains_key(a) ==> held[a] * payout_pool(m.total_shares)->Ok_0 <= i128::MAX
}

/// A payout to recipients is taken if and only if the caller may resolve markets,
/// nothing is under way, there are at most fifty recipients, the market is resolved
/// with no vote open on it and has winners, and they can be counted and paid.
pub proof fn lemma_payout_is_taken(
    s: ContractState,
    id: u64,
    recipients: Seq<Address>,
    resolver: Address,
)
    requires
        s.wf(),
        s.markets.contains_key(id),
        payouts_fit(s.markets[id]),
    ensures
        ({
            let m = s.markets[id];
            let transfers = payout_transfers(m, recipients);
            let left = s.config.vault_balance - paid_out(transfers);
            batch_payout_error(s, id, recipients, resolver) is None <==> {
                &&& s.config.resolver == Some(resolver) || s.config.super_admin == Some(resolver)
                &&& !s.config.locked
                &&& recipients.len() <= 50
                &&& m.market.status == MarketStatus::Resolved
                &&& !(m.dispute matches Some(d) && d.active)
                &&& total(m.positions[m.market.winning_outcome as int]) > 0
                &&& m.winners_paid + transfers.len() <= u32::MAX
                &&& m.swept ==> 0 <= left <= i128::MAX
            }
        }),
{
    let m = s.markets[id];
    assert(m.wf());
    lemma_winners(m);
    lemma_payees(m, recipients);
    lemma_pool_is_divided_by_its_rate(m.total_shares);
    let pool = payout_pool(m.total_shares)->Ok_0;
    let entries = payees(m, recipients);
    assert forall|i: int| 0 <= i < entries.len() implies payout(
        (#[trigger] entries[i]).1,
        pool,
        winning_shares(m),
    ) is Ok by {
        assert(winners(m).contains_key(entries[i].0));
        lemma_payout_rounds_down(entries[i].1, pool, winning_shares(m));
    }
}

/// A claim is paid if and only if the market is resolved, nothing is under way, the
/// claimant's part of the payout pool is at least one unit, it can be counted and
/// paid, and the fee that is due can be shared out.
pub proof fn lemma_claim_is_taken(s: ContractState, id: u64, claimant: Address)
    requires
        s.wf(),
        s.markets.contains_key(id),
        payouts_fit(s.markets[id]),
    ensures
        ({
            let m = s.markets[id];
            let w = m.market.winning_outcome as int;
            let pool = payout_pool(m.total_shares)->Ok_0;
            let fee = settlement_fee(m.total_shares)->Ok_0;
            let left = s.config.vault_balance - share_of(m, claimant)->Ok_0;
            (claim(s, id, claimant) matches Ok(Some(_))) <==> {
                &&& !s.config.locked
                &&& m.market.status == MarketStatus::Resolved
                &&& m.positions[w].contains_key(claimant)
                &&& m.positions[w][claimant] * pool >= m.outcome_shares[w]
                &&& m.winners_paid < u32::MAX
                &&& m.swept ==> 0 <= left <= i128::MAX
                &&& fee > 0 && !m.settlement_fee_paid ==> fee_split(
                    s.config,
                    fee,
                    m.market.token,
                ) is Ok
            }
        }),
{
    let m = s.markets[id];
    assert(m.wf());
    lemma_winners(m);
    lemma_pool_is_divided_by_its_rate(m.total_shares);
    if winners(m).contains_key(claimant) {
        lemma_share_by_holding(m, claimant);
    }
}

proof fn lemma_share_by_holding(m: MarketState, claimant: Address)
    requires
        m.wf(),
        payouts_fit(m),
        winners(m).contains_key(claimant),
    ensures
        ({
            let reaches = winners(m)[claimant] * payout_pool(m.total_shares)->Ok_0
                >= winning_shares(m);
            &&& share_of(m, claimant) matches Ok(x)
            &&& x > 0 <==> reaches
        }),
{
    lemma_winners(m);
    lemma_pool_is_divided_by_its_rate(m.total_shares);
    let pool = payout_pool(m.total_shares)->Ok_0;
    let h = winners(m)[claimant] as int;
    let stake = winning_shares(m) as int;
    lemma_payout_rounds_down(winners(m)[claimant], pool, winning_shares(m));
    let x = share_of(m, claimant)->Ok_0 as int;
    let y = h * pool;
    assert(x > 0 <==> y >= stake) by (nonlinear_arith)
        requires
            x * stake <= y < (x + 1) * stake,
            x >= 0,
            stake > 0,
    ;
}

/// A claim on an original payout is taken if and only if the market is resolved,
/// nothing is under way, something is on record for the claimant or, before a
/// sweep, its part of the payout pool is at least one unit, and it can be counted
/// and paid.
pub proof fn lemma_original_is_taken(s: ContractState, id: u64, claimant: Address)
    requires
        s.wf(),
        s.markets.contains_key(id),
        payouts_fit(s.markets[id]),
    ensures
        ({
            let m = s.markets[id];
            let w = m.market.winning_outcome as int;
            let pool = payout_pool(m.total_shares)->Ok_0;
            original_error(s, id, claimant) is None <==> {
                &&& !s.config.locked
                &&& m.market.status == MarketStatus::Resolved
                &&& m.winners_paid < u32::MAX
                &&& m.swept ==> {
                    &&& m.original_payouts.contains_key(claimant)
                    &&& m.original_payouts[claimant] > 0
                    &&& m.original_payouts[claimant] <= s.config.vault_balance
                }
                &&& !m.swept ==> {
                    &&& m.positions[w].contains_key(claimant)
                    &&& m.positions[w][claimant] * pool >= m.outcome_shares[w]
                }
            }
        }),
{
    let m = s.markets[id];
    assert(m.wf());
    lemma_winners(m);
    if winners(m).contains_key(claimant) {
        lemma_share_by_holding(m, claimant);
    }
}

/// Claiming from no market does nothing, and claiming from one is a claim from it.
pub proof fn lemma_one_claim(s: ContractState, id: u64, claimant: Address)
    ensures
        claims(s, seq![], claimant) matches Ok((t, sum, effects)) && t == s && sum == 0
            && effects.transfers.len() == 0 && effects.events.len() == 0,
        match claim(s, id, claimant) {
            Err(e) => claims(s, seq![id], claimant) matches Err(f) && f == e,
            Ok(None) => claims(s, seq![id], claimant) == claims(s, seq![], claimant),
            Ok(Some((paid, more))) => {
                &&& claims(s, seq![id], claimant) matches Ok((t, sum, effects))
                &&& t == claim_state(s, id, claimant)
                &&& sum == paid
                &&& effects == more
            },
        },
{
    let none = EffectsView { transfers: seq![], events: seq![] };
    assert(seq![id].drop_last() =~= seq![]);
    reveal_with_fuel(claims, 2);
    if let Ok(Some((paid, more))) = claim(s, id, claimant) {
        assert(none.and(more).transfers =~= more.transfers);
        assert(none.and(more).events =~= more.events);
    }
}

/// Claims from some markets and from others in one call are the first and after
/// them the second, whatever the number of markets: the sums and the effects add
/// up.
pub proof fn lemma_claims_in_turn(
    s: ContractState,
    first: Seq<u64>,
    second: Seq<u64>,
    claimant: Address,
)
    ensures
        ({
            let whole = claims(s, first + second, claimant);
            match claims(s, first, claimant) {
                Err(e) => whole matches Err(f) && f == e,
                Ok((mid, a, effects)) => match claims(mid, second, claimant) {
                    Err(e) => whole is Err,
                    Ok((end, b, more)) => {
                        &&& a >= 0 && b >= 0
                        &&& whole is Ok <==> a + b <= i128::MAX
                        &&& whole matches Ok((t, sum, all)) ==> t == end && sum == a + b && all
                            == effects.and(more)
                    },
                },
            }
        }),
    decreases second.len(),
{
    lemma_sum_nonnegative(s, first, claimant);
    if second.len() == 0 {
        assert(first + second =~= first);
        if let Ok((mid, a, effects)) = claims(s, first, claimant) {
            let none = EffectsView { transfers: seq![], events: seq![] };
            assert(effects.and(none).transfers =~= effects.transfers);
            assert(effects.and(none).events =~= effects.events);
        }
    } else {
        let front = second.drop_last();
        lemma_claims_in_turn(s, first, front, claimant);
        assert((first + second).drop_last() =~= first + front);
        assert((first + second).last() == second.last());
        if let Ok((mid, a, effects)) = claims(s, first, claimant) {
            lemma_sum_nonnegative(mid, second, claimant);
            lemma_sum_nonnegative(mid, front, claimant);
            if let Ok((t, b, more)) = claims(mid, front, claimant) {
                if let Ok(Some((paid, last))) = claim(t, second.last(), claimant) {
                    let (left, right) = (effects.and(more).and(last), effects.and(more.and(last)));
                    assert(left.transfers =~= right.transfers);
                    assert(left.events =~= right.events);
                }
            }
        }
    }
}

proof fn lemma_sum_nonnegative(s: ContractState, ids: Seq<u64>, claimant: Address)
    ensures
        claims(s, ids, claimant) matches Ok((_, sum, _)) ==> sum >= 0,
    decreases ids.len(),
{
    if ids.len() > 0 {
        lemma_sum_nonnegative(s, ids.drop_last(), claimant);
    }
}

/// A sweep that comes to amounts is refused only where a payout does not fit or
/// the vault cannot hold what is swept.
pub proof fn lemma_sweep_is_taken(s: ContractState, now: u64, caller: Address, id: u64)
    ensures
        ({
            let m = s.markets[id];
            let pool = payout_pool(m.total_shares);
            sweep_error(s, now, caller, id) is None <==> {
                &&& sweep_guard(s, now, caller, id) is None
                &&& winners(m).dom().len() > 0 ==> {
                    &&& pool is Ok
                    &&& payable(ordered(winners(m)), pool->Ok_0, winning_shares(m))
                    &&& i128::MIN <= s.config.vault_balance + unclaimed(m) <= i128::MAX
                }
            }
        }),
{
}

/// What a list of transfers adds up to: nothing where there are none, and with
/// one more, its amount more.
pub proof fn lemma_paid_out_counts(transfers: Seq<Transfer>, one: Transfer)
    ensures
        paid_out(Seq::empty()) == 0,
        paid_out(transfers.push(one)) == paid_out(transfers) + one.amount,
{
    assert(transfers.push(one).drop_last() =~= transfers);
}

/// Division rounds toward zero, whatever the signs.
pub proof fn lemma_division_rounds_toward_zero(a: int, b: int)
    requires
        a >= 0,
        b > 0,
    ensures
        quotient(a, b) * b <= a < (quotient(a, b) + 1) * b,
        quotient(-a, b) == -quotient(a, b),
        quotient(a, -b) == -quotient(a, b),
        quotient(-a, -b) == quotient(a, b),
{
    let x = a / b;
    assert(x * b <= a < (x + 1) * b) by (nonlinear_arith)
        requires
            x == a / b,
            b > 0,
    ;
    assert(0int / b == 0) by (nonlinear_arith)
        requires
            b > 0,
    ;
}

/// Amounts and times are refused only where the machine integers cannot hold
/// them, and otherwise are what was computed.
pub proof fn lemma_sums_are_exact(x: int)
    ensures
        fits(x) <==> -0x8000_0000_0000_0000_0000_0000_0000_0000 <= x
            <= 0x7fff_ffff_ffff_ffff_ffff_ffff_ffff_ffff,
        amount(x) is Ok <==> fits(x),
        amount(x) matches Ok(v) ==> v == x,
        amount(x) matches Err(e) ==> e == Error::Overflow,
        moment(x) is Ok <==> 0 <= x <= 0xffff_ffff_ffff_ffff,
        moment(x) matches Ok(t) ==> t == x,
        moment(x) matches Err(e) ==> e == Error::Overflow,
{
}

/// Before anything is configured, nobody has a role, nothing costs a fee, a bet
/// may be anything from one on, and fees all go to a treasury that is not set.
pub proof fn lemma_initial_settings()
    ensures
        ({
            let c = initial_config();
            &&& !c.initialized && !c.locked
            &&& c.status == AccessPlatformStatus::Active
            &&& c.legacy_admin is None && c.super_admin is None && c.fee_setter is None
            &&& c.pauser is None && c.resolver is None && c.oracle is None
            &&& c.creation_fee == 0 && c.fee_destination is None && c.fee_mode == FeeMode::Treasury
            &&& c.min_bet == 1 && c.max_bet == i128::MAX
            &&& c.fee_split.treasury_bps == 10_000
            &&& c.fee_split.lp_bps == 0 && c.fee_split.burn_bps == 0
            &&& c.treasury is None && c.lp_address is None && c.burn_address is None
            &&& c.vault_balance == 0
        }),
{
}

proof fn lemma_still_listed(left: Seq<Entry>, right: Seq<Entry>, entry: Entry)
    ensures
        left.contains(entry) || right.contains(entry) ==> (left + right).contains(entry),
{
    let all = left + right;
    if left.contains(entry) {
        let i = choose|i: int| 0 <= i < left.len() && left[i] == entry;
        assert(all[i] == entry);
    }
    if right.contains(entry) {
        let i = choose|i: int| 0 <= i < right.len() && right[i] == entry;
        assert(all[left.len() + i] == entry);
    }
}

/// The holdings of every outcome of a market, and what each user paid in and
/// whether it was refunded or paid out, are among the entries to keep alive.
pub proof fn lemma_users_entries_are_kept(id: u64, m: MarketState, outcome: u32, user: Address)
    requires
        m.wf(),
        m.user_cost.dom().finite(),
    ensures
        ({
            let entries = living_entries(id, m);
            &&& outcome < m.positions.len() ==> entries.contains(Entry::Position(id, outcome))
            &&& m.user_cost.contains_key(user) ==> entries.contains(
                Entry::Data(DataKey::UserCost(id, user)),
            )
            &&& m.user_cost.contains_key(user) && m.refund_claimed.contains_key(user)
                && m.refund_claimed[user] ==> entries.contains(
                Entry::Data(DataKey::RefundClaimed(id, user)),
            )
            &&& m.user_cost.contains_key(user) && m.payout_claimed.contains_key(user)
                && m.payout_claimed[user] ==> entries.contains(
                Entry::Data(DataKey::PayoutClaimed(id, user)),
            )
        }),
{
    let a = market_entries(id, m);
    let b = position_entries(id, m.positions.len());
    let c = user_entries(id, m, ordered(m.user_cost));
    let position = Entry::Position(id, outcome);
    if outcome < m.positions.len() {
        assert(b[outcome as int] == position);
    }
    lemma_still_listed(a, b, position);
    lemma_still_listed(a + b, c, position);
    if m.user_cost.contains_key(user) {
        let users = ordered(m.user_cost);
        lemma_ordered_lists(m.user_cost);
        let k = choose|k: int| 0 <= k < users.len() && (#[trigger] users[k]).0 == user;
        lemma_user_listed(id, m, users, k);
    }
    lemma_still_listed(a + b, c, Entry::Data(DataKey::UserCost(id, user)));
    lemma_still_listed(a + b, c, Entry::Data(DataKey::RefundClaimed(id, user)));
    lemma_still_listed(a + b, c, Entry::Data(DataKey::PayoutClaimed(id, user)));
}

proof fn lemma_user_listed(id: u64, m: MarketState, users: Seq<(Address, i128)>, k: int)
    requires
        0 <= k < users.len(),
    ensures
        ({
            let entries = user_entries(id, m, users);
            let a = users[k].0;
            &&& entries.contains(Entry::Data(DataKey::UserCost(id, a)))
            &&& flag_of(m.refund_claimed, a) ==> entries.contains(
                Entry::Data(DataKey::RefundClaimed(id, a)),
            )
            &&& flag_of(m.payout_claimed, a) ==> entries.contains(
                Entry::Data(DataKey::PayoutClaimed(id, a)),
            )
        }),
    decreases users.len(),
{
    let a = users[k].0;
    let last = users.last().0;
    let before = user_entries(id, m, users.drop_last());
    let x = entry_if(true, DataKey::UserCost(id, last));
    let y = entry_if(flag_of(m.refund_claimed, last), DataKey::RefundClaimed(id, last));
    let z = entry_if(flag_of(m.payout_claimed, last), DataKey::PayoutClaimed(id, last));
    let (p, q, r) = (
        Entry::Data(DataKey::UserCost(id, a)),
        Entry::Data(DataKey::RefundClaimed(id, a)),
        Entry::Data(DataKey::PayoutClaimed(id, a)),
    );
    if k < users.len() - 1 {
        assert(users.drop_last()[k] == users[k]);
        lemma_user_listed(id, m, users.drop_last(), k);
    } else {
        assert(x[0] == p);
        if flag_of(m.refund_claimed, a) {
            assert(y[0] == q);
        }
        if flag_of(m.payout_claimed, a) {
            assert(z[0] == r);
        }
    }
    lemma_still_listed(before, x, p);
    lemma_still_listed(before + x, y, p);
    lemma_still_listed(before + x + y, z, p);
    lemma_still_listed(before, x, q);
    lemma_still_listed(before + x, y, q);
    lemma_still_listed(before + x + y, z, q);
    lemma_still_listed(before, x, r);
    lemma_still_listed(before + x, y, r);
    lemma_still_listed(before + x + y, z, r);
}

/// Every entry that a market has as a whole is among those to keep alive.
pub proof fn lemma_market_entries_are_kept(id: u64, m: MarketState)
    ensures
        ({
            let entries = living_entries(id, m);
            &&& entries.contains(Entry::Data(DataKey::Market(id)))
            &&& entries.contains(Entry::Data(DataKey::OutcomePoolBalances(id)))
            &&& m.lp is Some ==> entries.contains(Entry::Data(DataKey::LpContribution(id)))
            &&& m.lp_fee_pool is Some ==> entries.contains(Entry::Data(DataKey::LpFeePool(id)))
            &&& m.dispute is Some ==> entries.contains(Entry::Data(DataKey::Dispute(id)))
            &&& m.claim_deadline is Some ==> entries.contains(
                Entry::Data(DataKey::ClaimDeadline(id)),
            )
            &&& m.swept ==> entries.contains(Entry::Data(DataKey::OriginalPayouts(id)))
            &&& m.settlement_fee_paid ==> entries.contains(
                Entry::Data(DataKey::SettlementFeePaid(id)),
            )
            &&& m.proposed_outcome_id is Some ==> entries.contains(
                Entry::Data(DataKey::ProposedOutcomeId(id)),
            )
            &&& m.unlock_timestamp is Some ==> entries.contains(
                Entry::Data(DataKey::UnlockTimestamp(id)),
            )
        }),
{
    lemma_grows(seq![], true, DataKey::Market(id));
    let l1 = seq![] + entry_if(true, DataKey::Market(id));
    assert(l1 =~= entry_if(true, DataKey::Market(id)));
    lemma_grows(l1, true, DataKey::OutcomePoolBalances(id));
    let l2 = l1 + entry_if(true, DataKey::OutcomePoolBalances(id));
    lemma_grows(l2, m.lp is Some, DataKey::LpContribution(id));
    let l3 = l2 + entry_if(m.lp is Some, DataKey::LpContribution(id));
    lemma_grows(l3, m.lp_fee_pool is Some, DataKey::LpFeePool(id));
    let l4 = l3 + entry_if(m.lp_fee_pool is Some, DataKey::LpFeePool(id));
    lemma_grows(l4, m.dispute is Some, DataKey::Dispute(id));
    let l5 = l4 + entry_if(m.dispute is Some, DataKey::Dispute(id));
    lemma_grows(l5, m.claim_deadline is Some, DataKey::ClaimDeadline(id));
    let l6 = l5 + entry_if(m.claim_deadline is Some, DataKey::ClaimDeadline(id));
    lemma_grows(l6, m.swept, DataKey::OriginalPayouts(id));
    let l7 = l6 + entry_if(m.swept, DataKey::OriginalPayouts(id));
    lemma_grows(l7, m.claimed != Map::<Address, bool>::empty(), DataKey::Claimed(id));
    let l8 = l7 + entry_if(m.claimed != Map::<Address, bool>::empty(), DataKey::Claimed(id));
    lemma_grows(l8, m.settlement_fee_paid, DataKey::SettlementFeePaid(id));
    let l9 = l8 + entry_if(m.settlement_fee_paid, DataKey::SettlementFeePaid(id));
    lemma_grows(l9, m.proposed_outcome_id is Some, DataKey::ProposedOutcomeId(id));
    let l10 = l9 + entry_if(m.proposed_outcome_id is Some, DataKey::ProposedOutcomeId(id));
    lemma_grows(l10, m.unlock_timestamp is Some, DataKey::UnlockTimestamp(id));
    let l11 = l10 + entry_if(m.unlock_timestamp is Some, DataKey::UnlockTimestamp(id));
    lemma_joins(l11, position_entries(id, m.positions.len()));
    let l12 = l11 + position_entries(id, m.positions.len());
    lemma_joins(l12, user_entries(id, m, ordered(m.user_cost)));
    assert(living_entries(id, m) == l12 + user_entries(id, m, ordered(m.user_cost)));
    lemma_has(living_entries(id, m));
}

/// A list holds an entry.
#[verifier::opaque]
spec fn has(list: Seq<Entry>, entry: Entry) -> bool {
    list.contains(entry)
}

proof fn lemma_has(list: Seq<Entry>)
    ensures
        forall|entry: Entry| #[trigger] has(list, entry) ==> list.contains(entry),
{
    reveal(has);
}

proof fn lemma_joins(left: Seq<Entry>, right: Seq<Entry>)
    ensures
        forall|entry: Entry| #[trigger] has(left, entry) ==> has(left + right, entry),
{
    reveal(has);
    assert forall|entry: Entry| #[trigger] has(left, entry) implies has(left + right, entry) by {
        lemma_still_listed(left, right, entry);
    }
}

proof fn lemma_grows(left: Seq<Entry>, there: bool, key: DataKey)
    ensures
        forall|entry: Entry| #[trigger]
            has(left, entry) ==> has(left + entry_if(there, key), entry),
        there ==> has(left + entry_if(there, key), Entry::Data(key)),
{
    lemma_joins(left, entry_if(there, key));
    if there {
        reveal(has);
        assert(entry_if(there, key)[0] == Entry::Data(key));
        lemma_still_listed(left, entry_if(there, key), Entry::Data(key));
    }
}

} // verus!
