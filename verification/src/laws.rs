//! What holds across calls, from the creation of a market to its resolution.
use vstd::prelude::*;

use crate::access::shutdown_error;
use crate::betting::{
    contributed, exit_error, lemma_with_bet, liquidity_error, moved, nonce_error, place_error,
    purchase_cost, reward_error, sale_value, with_bet, with_exit, with_liquidity, with_reward,
};
use crate::disputes::{after_vote, carried, open_error, vote_error};
use crate::holdings::{
    amount_of, flag_of, lemma_total_empty, lemma_total_insert, lemma_total_nonnegative,
    lemma_total_remove, total,
};
use crate::lmsr::cost;
use crate::market::{
    conclude_error, concluded, condition_met, create_error, dispute_error, fresh_market, lock_error,
    propose_outcome_error, propose_resolution_error, resolve_error, settle_error,
    with_proposed_outcome, with_proposed_resolution,
};
use crate::payouts::{batch_error, batch_payout_error, claim};
use crate::state::{backed, Config, ContractState, MarketState, MarketView};
use crate::types::{
    either, AccessPlatformStatus, Address, EffectsView, Error, MarketStatus, CHALLENGE_WINDOW,
    LIVENESS_WINDOW,
};
use crate::vault::{original_error, refund_error};

verus! {

/// What has been paid in is accounted for: it is what the shares outstanding
/// have cost since the market was new, and the liquidity provided.
pub open spec fn balanced(m: MarketState) -> bool {
    let none = Seq::new(m.outcomes(), |i: int| 0i128);
    m.total_shares == cost(m.outcome_shares, m.lmsr_b as int) - cost(none, m.lmsr_b as int)
        + total(contributed(m))
}

/// A new market is balanced.
pub proof fn lemma_fresh_is_balanced(market: MarketView, lmsr_b: i128)
    ensures
        balanced(fresh_market(market, lmsr_b)),
{
    lemma_total_empty();
}

/// A bet keeps a market balanced.
pub proof fn lemma_bet_keeps_balance(
    s: ContractState,
    now: u64,
    id: u64,
    outcome: u32,
    bettor: Address,
    shares: i128,
)
    requires
        place_error(s, now, id, outcome, bettor, shares) is None,
        balanced(s.markets[id]),
    ensures
        ({
            let m = s.markets[id];
            let paid = purchase_cost(m.outcome_shares, m.lmsr_b, outcome, shares)->Ok_0;
            balanced(with_bet(m, outcome, bettor, shares, paid))
        }),
{
}

/// An exit keeps a market balanced.
pub proof fn lemma_exit_keeps_balance(
    s: ContractState,
    id: u64,
    outcome: u32,
    bettor: Address,
    shares: i128,
)
    requires
        exit_error(s, id, outcome, bettor, shares) is None,
        balanced(s.markets[id]),
    ensures
        ({
            let m = s.markets[id];
            let value = sale_value(m.outcome_shares, m.lmsr_b, outcome, shares)->Ok_0;
            balanced(with_exit(m, outcome, bettor, shares, value))
        }),
{
}

/// Liquidity keeps a market balanced.
pub proof fn lemma_liquidity_keeps_balance(
    s: ContractState,
    id: u64,
    provider: Address,
    paid: i128,
)
    requires
        s.wf(),
        liquidity_error(s, id, provider, paid) is None,
        balanced(s.markets[id]),
    ensures
        balanced(with_liquidity(s.markets[id], provider, paid)),
{
    let m = s.markets[id];
    assert(m.wf());
    lemma_total_insert(
        contributed(m),
        provider,
        (amount_of(contributed(m), provider) + paid) as i128,
    );
}

/// Giving back what was just bought undoes the purchase: the shares are worth
/// what they cost (the exit fee is taken from that), and the quantities, the
/// holdings and the total are as before.
pub proof fn lemma_exit_undoes_bet(
    s: ContractState,
    now: u64,
    id: u64,
    outcome: u32,
    bettor: Address,
    shares: i128,
)
    requires
        s.wf(),
        place_error(s, now, id, outcome, bettor, shares) is None,
    ensures
        ({
            let m = s.markets[id];
            let paid = purchase_cost(m.outcome_shares, m.lmsr_b, outcome, shares)->Ok_0;
            let bought = with_bet(m, outcome, bettor, shares, paid);
            let left = with_exit(bought, outcome, bettor, shares, paid);
            &&& sale_value(bought.outcome_shares, bought.lmsr_b, outcome, shares) == Ok::<
                i128,
                Error,
            >(paid)
            &&& left.outcome_shares == m.outcome_shares
            &&& left.positions == m.positions
            &&& left.total_shares == m.total_shares
        }),
{
    let m = s.markets[id];
    assert(m.wf());
    let o = outcome as int;
    let paid = purchase_cost(m.outcome_shares, m.lmsr_b, outcome, shares)->Ok_0;
    let bought = with_bet(m, outcome, bettor, shares, paid);
    let left = with_exit(bought, outcome, bettor, shares, paid);
    lemma_with_bet(m, outcome, bettor, shares, paid);
    assert(m.outcome_shares[o] >= 0);
    assert(moved(bought.outcome_shares, outcome, -shares) =~= m.outcome_shares);
    assert(left.positions[o] =~= m.positions[o]);
    assert(left.positions =~= m.positions);
}

/// A bet adds its cost to what the bettor has paid in, and to nobody else's.
pub proof fn lemma_bet_is_refundable(
    s: ContractState,
    now: u64,
    id: u64,
    outcome: u32,
    bettor: Address,
    shares: i128,
    other: Address,
)
    requires
        place_error(s, now, id, outcome, bettor, shares) is None,
    ensures
        ({
            let m = s.markets[id];
            let paid = purchase_cost(m.outcome_shares, m.lmsr_b, outcome, shares)->Ok_0;
            let bought = with_bet(m, outcome, bettor, shares, paid);
            &&& amount_of(bought.user_cost, bettor) == amount_of(m.user_cost, bettor) + paid
            &&& other != bettor ==> amount_of(bought.user_cost, other) == amount_of(
                m.user_cost,
                other,
            )
        }),
{
}

/// What everybody has on record as paid in is what the market took in, so that
/// all refunds together are covered.
pub open spec fn refundable(m: MarketState) -> bool {
    m.user_cost.dom().finite() && total(m.user_cost) == m.total_shares
}

/// A new market is refundable, and bets and liquidity keep it so. An exit does
/// not: it pays out and leaves the bettor's record as it is.
pub proof fn lemma_refunds_are_covered(
    s: ContractState,
    now: u64,
    id: u64,
    outcome: u32,
    account: Address,
    amount: i128,
    market: MarketView,
    lmsr_b: i128,
)
    ensures
        refundable(fresh_market(market, lmsr_b)),
        refundable(s.markets[id]) && place_error(s, now, id, outcome, account, amount) is None
            ==> ({
            let m = s.markets[id];
            let paid = purchase_cost(m.outcome_shares, m.lmsr_b, outcome, amount)->Ok_0;
            refundable(with_bet(m, outcome, account, amount, paid))
        }),
        refundable(s.markets[id]) && liquidity_error(s, id, account, amount) is None ==> refundable(
            with_liquidity(s.markets[id], account, amount),
        ),
{
    let m = s.markets[id];
    lemma_total_empty();
    if refundable(m) {
        let paid = purchase_cost(m.outcome_shares, m.lmsr_b, outcome, amount)->Ok_0;
        lemma_total_insert(
            m.user_cost,
            account,
            (amount_of(m.user_cost, account) + paid) as i128,
        );
        lemma_total_insert(
            m.user_cost,
            account,
            (amount_of(m.user_cost, account) + amount) as i128,
        );
    }
}

/// All shares outstanding of every outcome are held by somebody.
pub open spec fn fully_held(m: MarketState) -> bool {
    forall|i: int|
        0 <= i < m.outcomes() ==> total(#[trigger] m.positions[i]) == m.outcome_shares[i]
}

/// All shares are held in a new market, and bets and exits keep it so: when a
/// market is resolved, its winners hold all winning shares.
pub proof fn lemma_shares_are_held(
    s: ContractState,
    now: u64,
    id: u64,
    outcome: u32,
    bettor: Address,
    shares: i128,
    market: MarketView,
    lmsr_b: i128,
)
    requires
        s.wf(),
    ensures
        fully_held(fresh_market(market, lmsr_b)),
        fully_held(s.markets[id]) && place_error(s, now, id, outcome, bettor, shares) is None
            ==> ({
            let m = s.markets[id];
            let paid = purchase_cost(m.outcome_shares, m.lmsr_b, outcome, shares)->Ok_0;
            fully_held(with_bet(m, outcome, bettor, shares, paid))
        }),
        fully_held(s.markets[id]) && exit_error(s, id, outcome, bettor, shares) is None ==> ({
            let m = s.markets[id];
            let value = sale_value(m.outcome_shares, m.lmsr_b, outcome, shares)->Ok_0;
            fully_held(with_exit(m, outcome, bettor, shares, value))
        }),
{
    let m = s.markets[id];
    let o = outcome as int;
    lemma_total_empty();
    if fully_held(m) && place_error(s, now, id, outcome, bettor, shares) is None {
        let paid = purchase_cost(m.outcome_shares, m.lmsr_b, outcome, shares)->Ok_0;
        let n = with_bet(m, outcome, bettor, shares, paid);
        assert(m.wf());
        assert(backed(m.positions[o], m.outcome_shares[o]));
        lemma_with_bet(m, outcome, bettor, shares, paid);
        lemma_total_nonnegative(m.positions[o]);
        lemma_total_insert(
            m.positions[o],
            bettor,
            (m.position(outcome, bettor) + shares) as i128,
        );
        assert forall|i: int| 0 <= i < n.outcomes() implies total(#[trigger] n.positions[i])
            == n.outcome_shares[i] by {
            assert(total(m.positions[i]) == m.outcome_shares[i]);
        }
    }
    if fully_held(m) && exit_error(s, id, outcome, bettor, shares) is None {
        let value = sale_value(m.outcome_shares, m.lmsr_b, outcome, shares)->Ok_0;
        let n = with_exit(m, outcome, bettor, shares, value);
        assert(m.wf());
        assert(backed(m.positions[o], m.outcome_shares[o]));
        lemma_total_remove(m.positions[o], bettor);
        lemma_total_insert(
            m.positions[o],
            bettor,
            (m.position(outcome, bettor) - shares) as i128,
        );
        assert forall|i: int| 0 <= i < n.outcomes() implies total(#[trigger] n.positions[i])
            == n.outcome_shares[i] by {
            assert(total(m.positions[i]) == m.outcome_shares[i]);
        }
    }
}

/// A bet that is taken is within the limits, on an open market that is not
/// paused, in a token that is allowed.
pub proof fn lemma_bets_are_guarded(
    s: ContractState,
    now: u64,
    id: u64,
    outcome: u32,
    bettor: Address,
    shares: i128,
)
    requires
        either(
            shutdown_error(s),
            place_error(s, now, id, outcome, bettor, shares),
        ) is None,
    ensures
        s.config.status == AccessPlatformStatus::Active,
        s.config.min_bet <= shares <= s.config.max_bet,
        !s.is_paused(id),
        s.markets[id].market.status == MarketStatus::Active,
        now <= s.markets[id].market.deadline,
        flag_of(s.whitelist, s.markets[id].market.token),
{
}

/// A nonce that was used is refused from then on, and the next one is in order.
pub proof fn lemma_nonce_is_spent(
    s: ContractState,
    bettor: Address,
    nonce: u64,
    after: ContractState,
)
    requires
        nonce_error(s, bettor, nonce) is None,
        after.nonces == s.nonces.insert(bettor, (nonce + 1) as u64),
    ensures
        nonce_error(after, bettor, nonce) == Some(Error::InvalidNonce),
        nonce + 1 < u64::MAX ==> nonce_error(after, bettor, (nonce + 1) as u64) is None,
{
}

/// Nothing is withdrawn before the 24 hours of an oracle's proposal are over.
/// Until then it can be made final neither by settling it nor by a resolver,
/// whether it was disputed or not; and while it is not final nobody is paid, in
/// batches, as a recipient, by a claim, from the liquidity pool or as a refund,
/// whatever the time.
pub proof fn lemma_challenge_period(
    s: ContractState,
    proposed_at: u64,
    oracle: Address,
    id: u64,
    outcome: u32,
    now: u64,
    caller: Address,
    winning_outcome: u32,
    later: u64,
    batch_size: u32,
    recipients: Seq<Address>,
    disputed: bool,
)
    requires
        propose_outcome_error(s, proposed_at, oracle, id, outcome) is None,
    ensures
        ({
            let proposed = with_proposed_outcome(s.markets[id], proposed_at, outcome);
            let m = if disputed {
                proposed.with_status(MarketStatus::Disputed)
            } else {
                proposed
            };
            let t = s.with_market(id, m);
            let early = now < proposed_at + CHALLENGE_WINDOW;
            &&& early ==> settle_error(t, now, id) is Some
            &&& early ==> resolve_error(t, now, caller, id, winning_outcome) is Some
            &&& !early ==> settle_error(t, now, id) != Some(Error::ChallengeTimerRunning)
            &&& !early ==> resolve_error(t, now, caller, id, winning_outcome) != Some(
                Error::ChallengeTimerRunning,
            )
            &&& batch_error(t, later, id, batch_size) is Some
            &&& batch_payout_error(t, id, recipients, caller) is Some
            &&& claim(t, id, caller) == Ok::<Option<(i128, EffectsView)>, Error>(None)
            &&& original_error(t, id, caller) is Some
            &&& reward_error(t, id, caller) is Some
            &&& refund_error(t, id, caller) is Some
        }),
{
}

/// A market that is settled or resolved has no challenge period running.
pub proof fn lemma_final_after_challenge(
    s: ContractState,
    now: u64,
    resolver: Address,
    id: u64,
    outcome: u32,
)
    requires
        settle_error(s, now, id) is None || resolve_error(s, now, resolver, id, outcome) is None,
    ensures
        s.markets[id].unlock_timestamp matches Some(t) ==> now >= t,
{
}

/// A resolver's proposal can be made final, by whoever and with whatever
/// outcome, no sooner than the liveness window after it was made.
pub proof fn lemma_liveness_window(
    s: ContractState,
    proposed_at: u64,
    resolver: Address,
    id: u64,
    outcome: u32,
    now: u64,
    caller: Address,
    winning_outcome: u32,
)
    requires
        propose_resolution_error(s, resolver, id, outcome) is None,
        now < proposed_at + LIVENESS_WINDOW,
    ensures
        resolve_error(
            s.with_market(id, with_proposed_resolution(s.markets[id], proposed_at, outcome)),
            now,
            caller,
            id,
            winning_outcome,
        ) is Some,
{
}

/// A market that is settled or finally resolved is Resolved where the condition
/// it depends on is met, and Voided where it is not. A voided market pays no
/// winners, and refunds everyone who paid in and was not refunded before.
pub proof fn lemma_condition_decides(
    s: ContractState,
    now: u64,
    id: u64,
    outcome: u32,
    bettor: Address,
    later: u64,
    batch_size: u32,
)
    requires
        s.markets.contains_key(id),
        conclude_error(s, id) is None,
    ensures
        ({
            let m = s.markets[id];
            let after = concluded(s, now, id, outcome);
            let t = s.with_market(id, after);
            &&& after.market.status == if condition_met(s, m) {
                MarketStatus::Resolved
            } else {
                MarketStatus::Voided
            }
            &&& after.market.winning_outcome == outcome
            &&& !condition_met(s, m) ==> batch_error(t, later, id, batch_size) is Some
            &&& !condition_met(s, m) ==> (refund_error(t, id, bettor) is None <==> amount_of(
                m.user_cost,
                bettor,
            ) > 0 && !flag_of(m.refund_claimed, bettor))
        }),
{
}

/// A refund is paid once.
pub proof fn lemma_refund_once(s: ContractState, id: u64, bettor: Address)
    requires
        refund_error(s, id, bettor) is None,
    ensures
        ({
            let m = s.markets[id];
            let after = MarketState {
                refund_claimed: m.refund_claimed.insert(bettor, true),
                ..m
            };
            refund_error(s.with_market(id, after), id, bettor) == Some(Error::AlreadyRefunded)
        }),
{
}

/// A market can be resolved once.
pub proof fn lemma_resolved_once(
    s: ContractState,
    now: u64,
    resolver: Address,
    id: u64,
    outcome: u32,
    later: u64,
    other: u32,
)
    requires
        resolve_error(s, now, resolver, id, outcome) is None,
    ensures
        resolve_error(
            s.with_market(id, concluded(s, now, id, outcome)),
            later,
            resolver,
            id,
            other,
        ) == Some(Error::NotProposedOrDisputed),
{
}

/// A market number is given once.
pub proof fn lemma_created_once(
    s: ContractState,
    now: u64,
    creator: Address,
    id: u64,
    outcomes: nat,
    deadline: u64,
    lmsr_b: i128,
    m: MarketState,
)
    requires
        create_error(s, now, creator, id, outcomes, deadline, lmsr_b) is None,
    ensures
        create_error(
            s.with_market(id, m),
            now,
            creator,
            id,
            outcomes,
            deadline,
            lmsr_b,
        ) == Some(Error::MarketExists),
{
}

/// A shutdown stops new markets and bets, and nothing that lets money out:
/// proposals, resolutions, payouts and claims are taken as before.
pub proof fn lemma_shutdown_spares_settlement(
    s: ContractState,
    now: u64,
    caller: Address,
    id: u64,
    outcome: u32,
    batch_size: u32,
    recipients: Seq<Address>,
)
    ensures
        ({
            let t = s.with_config(Config { status: AccessPlatformStatus::Shutdown, ..s.config });
            &&& shutdown_error(t) == Some(Error::PlatformShutDown)
            &&& propose_outcome_error(t, now, caller, id, outcome) == propose_outcome_error(
                s,
                now,
                caller,
                id,
                outcome,
            )
            &&& propose_resolution_error(t, caller, id, outcome) == propose_resolution_error(
                s,
                caller,
                id,
                outcome,
            )
            &&& settle_error(t, now, id) == settle_error(s, now, id)
            &&& resolve_error(t, now, caller, id, outcome) == resolve_error(
                s,
                now,
                caller,
                id,
                outcome,
            )
            &&& batch_error(t, now, id, batch_size) == batch_error(s, now, id, batch_size)
            &&& batch_payout_error(t, id, recipients, caller) == batch_payout_error(
                s,
                id,
                recipients,
                caller,
            )
            &&& claim(t, id, caller) == claim(s, id, caller)
            &&& original_error(t, id, caller) == original_error(s, id, caller)
            &&& refund_error(t, id, caller) == refund_error(s, id, caller)
        }),
{
}

/// A voter votes once, whatever the weight and whenever the second try, and once
/// a vote carries nothing is paid in batches or to recipients.
pub proof fn lemma_vote_binds(
    s: ContractState,
    now: u64,
    id: u64,
    voter: Address,
    support: bool,
    weight: i128,
    later: u64,
    again: bool,
    other_weight: i128,
    batch_size: u32,
    recipients: Seq<Address>,
    resolver: Address,
)
    requires
        vote_error(s, now, id, voter, support, weight) is None,
    ensures
        ({
            let m = after_vote(s.markets[id], voter, support, weight);
            let t = s.with_market(id, m);
            &&& vote_error(t, later, id, voter, again, other_weight) is Some
            &&& carried(m.dispute->0) ==> batch_error(t, later, id, batch_size) is Some
            &&& carried(m.dispute->0) ==> batch_payout_error(t, id, recipients, resolver) is Some
        }),
{
}

/// A liquidity provider is rewarded once.
pub proof fn lemma_reward_once(s: ContractState, id: u64, provider: Address, reward: i128)
    requires
        reward_error(s, id, provider) is None,
    ensures
        reward_error(
            s.with_market(id, with_reward(s.markets[id], provider, reward)),
            id,
            provider,
        ) is Some,
{
}

/// A voided market stays voided.
pub proof fn lemma_voided_is_final(
    s: ContractState,
    now: u64,
    caller: Address,
    id: u64,
    outcome: u32,
    amount: i128,
    support: bool,
)
    requires
        s.markets.contains_key(id),
        s.markets[id].market.status == MarketStatus::Voided,
        s.markets[id].dispute is None,
    ensures
        lock_error(s, caller, id) is Some,
        propose_outcome_error(s, now, caller, id, outcome) is Some,
        propose_resolution_error(s, caller, id, outcome) is Some,
        dispute_error(s, id, amount) is Some,
        settle_error(s, now, id) is Some,
        resolve_error(s, now, caller, id, outcome) is Some,
        open_error(s, now, id, amount) is Some,
        vote_error(s, now, id, caller, support, amount) is Some,
{
}

} // verus!
