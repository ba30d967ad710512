//! What the fees amount to: the rate at a volume, the parts of a pool, and who
//! gets which part of a fee.
use vstd::prelude::*;

use crate::betting::exit_fee;
use crate::checked_math::{fits, lemma_quotient_fits, quotient, scaled};
use crate::fees::{
    dynamic_fee, effective_cap, fee_part, fee_rate, fee_split, limits_error, payment, split_error,
};
use crate::market::creation_payment;
use crate::payout_laws::{lemma_paid_to_add, lemma_paid_to_alone, paid_to};
use crate::payouts::{payout_pool, settlement_fee};
use crate::state::{Config, ContractState};
use crate::types::{Address, Error, Event, FeeConfig, Party, Transfer};

verus! {

/// A whole number is a quotient, rounded down.
pub open spec fn rounds_down(x: int, dividend: int, divisor: int) -> bool {
    x * divisor <= dividend < (x + 1) * divisor
}

/// A quotient of numbers that are not negative is rounded down.
pub proof fn lemma_scaled_rounds_down(a: int, b: int, c: int)
    requires
        a >= 0,
        b >= 0,
        c > 0,
    ensures
        scaled(a, b, c) matches Ok(x) ==> x >= 0 && rounds_down(x as int, a * b, c),
        scaled(a, b, c) is Ok <==> a * b <= i128::MAX,
        scaled(a, b, c) matches Err(e) ==> e == Error::Overflow,
{
    assert(a * b >= 0) by (nonlinear_arith)
        requires
            a >= 0,
            b >= 0,
    ;
    if fits(a * b) {
        lemma_quotient_fits(a * b, c);
    }
    let x = quotient(a * b, c);
    assert(x == a * b / c);
    assert(x * c <= a * b < (x + 1) * c && 0 <= x <= a * b) by (nonlinear_arith)
        requires
            x == (a * b) / c,
            a * b >= 0,
            c > 0,
    ;
}

/// A rate in basis points is the fee rate at a volume: 2% where there is no
/// volume, from there 1.5% less in proportion to the volume, rounded up to a
/// basis point, and 0.5% from 1,000,000,000,000 stroops on.
pub open spec fn is_fee_rate(rate: int, volume: int) -> bool {
    if volume <= 0 {
        rate == 200
    } else if volume <= 1_000_000_000_000 {
        rounds_down(200 - rate, 150 * volume, 1_000_000_000_000)
    } else {
        rate == 50
    }
}

/// The fee falls in proportion to the volume, from 2% at none to 0.5% at the
/// threshold, and stays there.
pub proof fn lemma_fee_is_proportional(volume: i128)
    ensures
        is_fee_rate(dynamic_fee(volume as int), volume as int),
        50 <= dynamic_fee(volume as int) <= 200,
        fee_rate(volume) matches Ok(rate) ==> is_fee_rate(rate as int, volume as int),
        fee_rate(volume) is Ok <==> volume * 150 <= i128::MAX,
{
    let v = volume as int;
    if v > 0 {
        let less = v * 150 / 1_000_000_000_000;
        assert(less * 1_000_000_000_000 <= v * 150 < (less + 1) * 1_000_000_000_000);
    }
}

/// An amount is the fee on a pool at the rate of the pool.
pub open spec fn is_settlement_fee(fee: int, pool: int) -> bool {
    exists|rate: int| #[trigger]
        is_fee_rate(rate, pool) && rounds_down(fee, pool * rate, 10_000)
}

/// An amount is what a pool leaves for the winners once the fee at the rate of
/// the pool is off.
pub open spec fn is_payout_pool(rest: int, pool: int) -> bool {
    exists|rate: int| #[trigger]
        is_fee_rate(rate, pool) && rounds_down(rest, pool * (10_000 - rate), 10_000)
}

/// A pool is divided by its fee rate.
pub proof fn lemma_pool_is_divided_by_its_rate(pool: i128)
    requires
        pool >= 0,
    ensures
        settlement_fee(pool) matches Ok(fee) ==> fee >= 0 && is_settlement_fee(
            fee as int,
            pool as int,
        ),
        payout_pool(pool) matches Ok(rest) ==> rest >= 0 && is_payout_pool(
            rest as int,
            pool as int,
        ),
        pool * 10_000 <= i128::MAX ==> settlement_fee(pool) is Ok && payout_pool(pool) is Ok,
{
    lemma_fee_is_proportional(pool);
    let p = pool as int;
    let rate = dynamic_fee(p);
    lemma_scaled_rounds_down(p, rate, 10_000);
    lemma_scaled_rounds_down(p, 10_000 - rate, 10_000);
    assert(p * rate <= p * 10_000 && p * (10_000 - rate) <= p * 10_000) by (nonlinear_arith)
        requires
            p >= 0,
            50 <= rate <= 200,
    ;
    assert(is_fee_rate(rate, p));
}

/// The legs of a fee that is shared out: treasury, liquidity providers and burn
/// address each get their basis points of it, rounded down, and nobody else gets
/// anything.
pub proof fn lemma_fee_legs(config: Config, fee: i128, token: Address, account: Address)
    requires
        fee > 0,
        fee_split(config, fee, token) is Ok,
    ensures
        ({
            let effects = fee_split(config, fee, token)->Ok_0;
            let split = config.fee_split;
            &&& config.treasury is Some && config.lp_address is Some && config.burn_address is Some
            &&& effects.events.len() == 1
            &&& effects.events[0] matches Event::FeeSplit { fee: whole, treasury, lp, burn }
            &&& whole == fee
            &&& treasury >= 0 && lp >= 0 && burn >= 0
            &&& rounds_down(treasury as int, fee * split.treasury_bps, 10_000)
            &&& rounds_down(lp as int, fee * split.lp_bps, 10_000)
            &&& rounds_down(burn as int, fee * split.burn_bps, 10_000)
            &&& paid_to(effects.transfers, account) == (if config.treasury == Some(account) {
                treasury as int
            } else {
                0
            }) + (if config.lp_address == Some(account) {
                lp as int
            } else {
                0
            }) + (if config.burn_address == Some(account) {
                burn as int
            } else {
                0
            })
            &&& forall|i: int|
                0 <= i < effects.transfers.len() ==> {
                    &&& (#[trigger] effects.transfers[i]).token == token
                    &&& effects.transfers[i].from == Party::Contract
                    &&& effects.transfers[i].amount > 0
                }
        }),
{
    let split = config.fee_split;
    lemma_scaled_rounds_down(fee as int, split.treasury_bps as int, 10_000);
    lemma_scaled_rounds_down(fee as int, split.lp_bps as int, 10_000);
    lemma_scaled_rounds_down(fee as int, split.burn_bps as int, 10_000);
    let t = fee_part(fee, split.treasury_bps)->Ok_0;
    let l = fee_part(fee, split.lp_bps)->Ok_0;
    let b = fee_part(fee, split.burn_bps)->Ok_0;
    let p1 = payment(token, config.treasury->0, t);
    let p2 = payment(token, config.lp_address->0, l);
    let p3 = payment(token, config.burn_address->0, b);
    lemma_paid_to_add(p1 + p2, p3, account);
    lemma_paid_to_add(p1, p2, account);
    lemma_one_payment(token, config.treasury->0, t, account);
    lemma_one_payment(token, config.lp_address->0, l, account);
    lemma_one_payment(token, config.burn_address->0, b, account);
}

proof fn lemma_one_payment(token: Address, to: Address, amount: i128, account: Address)
    requires
        amount >= 0,
    ensures
        paid_to(payment(token, to, amount), account) == if to == account {
            amount as int
        } else {
            0
        },
{
    let transfer = Transfer::pay(token, to, amount);
    lemma_paid_to_alone(transfer);
    reveal_with_fuel(paid_to, 2);
    assert(seq![transfer].drop_last() =~= Seq::empty());
}

/// When a fee can be shared out: where there is none, and otherwise where all
/// three addresses are set and no product is too large.
pub proof fn lemma_fee_is_shared_out(config: Config, fee: i128, token: Address)
    requires
        fee >= 0,
    ensures
        fee == 0 ==> (fee_split(config, fee, token) matches Ok(effects)
            && effects.transfers.len() == 0 && effects.events.len() == 0),
        fee > 0 ==> (fee_split(config, fee, token) is Ok <==> {
            &&& config.treasury is Some
            &&& config.lp_address is Some
            &&& config.burn_address is Some
            &&& fee * config.fee_split.treasury_bps <= i128::MAX
            &&& fee * config.fee_split.lp_bps <= i128::MAX
            &&& fee * config.fee_split.burn_bps <= i128::MAX
        }),
        fee > 0 && config.treasury is None ==> fee_split(config, fee, token)->Err_0
            == Error::TreasuryMissing,
        fee > 0 && config.treasury is Some && config.lp_address is None ==> fee_split(
            config,
            fee,
            token,
        )->Err_0 == Error::LpAddressMissing,
        fee > 0 && config.treasury is Some && config.lp_address is Some && config.burn_address
            is None ==> fee_split(config, fee, token)->Err_0 == Error::BurnAddressMissing,
{
    let split = config.fee_split;
    lemma_scaled_rounds_down(fee as int, split.treasury_bps as int, 10_000);
    lemma_scaled_rounds_down(fee as int, split.lp_bps as int, 10_000);
    lemma_scaled_rounds_down(fee as int, split.burn_bps as int, 10_000);
}

/// Shares of the fee are taken if and only if they add up to one hundred
/// percent.
pub proof fn lemma_split_is_whole(treasury_bps: u32, lp_bps: u32, burn_bps: u32)
    ensures
        split_error(treasury_bps, lp_bps, burn_bps) is None <==> treasury_bps + lp_bps + burn_bps
            == 10_000,
        (FeeConfig { treasury_bps, lp_bps, burn_bps }).is_whole() <==> treasury_bps + lp_bps
            + burn_bps == 10_000,
{
}

/// Leaving a position early costs half a percent of what it is worth, rounded
/// down.
pub proof fn lemma_exit_costs_half_a_percent(value: i128)
    requires
        value >= 0,
    ensures
        exit_fee(value) matches Ok(fee) ==> 0 <= fee <= value && rounds_down(
            fee as int,
            value * 50,
            10_000,
        ),
        exit_fee(value) is Ok <==> value * 50 <= i128::MAX,
{
    lemma_scaled_rounds_down(value as int, 50, 10_000);
}

/// Bet limits are taken if and only if the smallest bet is at least one and the
/// largest, where there is one, no smaller; a largest bet of zero means none.
pub proof fn lemma_limits_are_ordered(min_amount: i128, max_amount: i128)
    ensures
        limits_error(min_amount, max_amount) is None <==> 1 <= min_amount && (max_amount == 0
            || min_amount <= max_amount),
        min_amount < 1 ==> limits_error(min_amount, max_amount) == Some(Error::MinBetTooSmall),
        1 <= min_amount && limits_error(min_amount, max_amount) is Some ==> limits_error(
            min_amount,
            max_amount,
        ) == Some(Error::MaxBetBelowMin),
        max_amount == 0 ==> effective_cap(max_amount) == i128::MAX,
        max_amount != 0 ==> effective_cap(max_amount) == max_amount,
{
}

/// A new market costs its creator the configured fee, in the market's token and
/// paid to the configured destination; a fee of zero costs nothing.
pub proof fn lemma_creation_fee_is_paid(s: ContractState, creator: Address, token: Address)
    ensures
        creation_payment(s, creator, token) is Some <==> s.config.creation_fee > 0
            && s.config.fee_destination is Some,
        creation_payment(s, creator, token) matches Some(t) ==> {
            &&& t.token == token
            &&& t.from == Party::Account(creator)
            &&& s.config.fee_destination matches Some(to) && t.to == Party::Account(to)
            &&& t.amount == s.config.creation_fee
        },
{
}

} // verus!
