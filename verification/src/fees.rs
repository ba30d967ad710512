//! Platform fees: the dynamic rate and the split of what it brings in.
use vstd::prelude::*;

use crate::access::role_error;
use crate::checked_math::{cmuldiv, fits, lemma_quotient_fits, scaled};
use crate::fee_laws::{is_fee_rate, lemma_fee_is_proportional};
use crate::state::{Config, PredictionMarket};
use crate::types::{
    either, Address, Effects, EffectsView, Error, Event, FeeConfig, FeeMode, Role, Transfer, BPS,
};

verus! {

/// Volume in stroops at which the fee has fallen by its full reduction.
pub const FEE_THRESHOLD: i128 = 1_000_000_000_000;

/// The fee at a volume can be computed without overflow.
pub open spec fn fee_computable(volume: int) -> bool {
    volume <= 0 || fits(volume * 150)
}

/// The fee rate at a volume: 2% at no volume, falling by 1.5% over the
/// threshold volume, never under 0.5%.
pub open spec fn dynamic_fee(volume: int) -> int {
    if volume <= 0 {
        200
    } else {
        let fee = 200 - volume * 150 / (FEE_THRESHOLD as int);
        if fee < 50 {
            50
        } else {
            fee
        }
    }
}

/// Calculates dynamic platform fee in basis points.
/// Fee = Max(0.5%, 2% - (Volume / Threshold))
pub fn calculate_dynamic_fee(volume: i128) -> (fee: u32)
    requires
        fee_computable(volume as int),
    ensures
        fee == dynamic_fee(volume as int),
        50 <= fee <= 200,
        is_fee_rate(fee as int, volume as int),
{
    proof {
        lemma_fee_is_proportional(volume);
    }
    if volume <= 0 {
        return 200;
    }
    let reduction: i128 = volume * 150 / FEE_THRESHOLD;
    let fee: i128 = 200 - reduction;
    if fee < 50 {
        50
    } else {
        fee as u32
    }
}

/// The fee rate at a volume, or `Overflow` where it cannot be computed.
pub open spec fn fee_rate(volume: i128) -> Result<u32, Error> {
    if !fee_computable(volume as int) {
        Err(Error::Overflow)
    } else {
        Ok(dynamic_fee(volume as int) as u32)
    }
}

/// The fee rate at a volume, or `Overflow` where it cannot be computed.
pub fn checked_dynamic_fee(volume: i128) -> (res: Result<u32, Error>)
    ensures
        res == fee_rate(volume),
        res matches Ok(fee) ==> 50 <= fee <= 200,
        res matches Ok(fee) ==> is_fee_rate(fee as int, volume as int),
{
    if volume > i128::MAX / 150 {
        Err(Error::Overflow)
    } else {
        Ok(calculate_dynamic_fee(volume))
    }
}

/// A larger volume never pays a higher rate.
pub proof fn lemma_fee_falls_with_volume(lower: int, higher: int)
    requires
        lower <= higher,
    ensures
        dynamic_fee(higher) <= dynamic_fee(lower),
{
    if lower > 0 {
        assert(lower * 150 / (FEE_THRESHOLD as int) <= higher * 150 / (FEE_THRESHOLD as int));
    } else if higher > 0 {
        assert(higher * 150 / (FEE_THRESHOLD as int) >= 0);
    }
}

/// A part of a fee, in basis points, rounded down.
pub open spec fn fee_part(fee: i128, bps: u32) -> Result<i128, Error> {
    scaled(fee as int, bps as int, BPS as int)
}

/// A payment where there is something to pay, and otherwise none.
pub open spec fn payment(token: Address, to: Address, amount: i128) -> Seq<Transfer> {
    if amount > 0 {
        seq![Transfer::pay(token, to, amount)]
    } else {
        seq![]
    }
}

/// How a fee is shared out between treasury, liquidity providers and burn
/// address, or why it cannot be.
pub open spec fn fee_split(config: Config, fee: i128, token: Address) -> Result<
    EffectsView,
    Error,
> {
    let treasury = fee_part(fee, config.fee_split.treasury_bps);
    let lp = fee_part(fee, config.fee_split.lp_bps);
    let burn = fee_part(fee, config.fee_split.burn_bps);
    if fee == 0 {
        Ok(EffectsView { transfers: seq![], events: seq![] })
    } else if config.treasury is None {
        Err(Error::TreasuryMissing)
    } else if config.lp_address is None {
        Err(Error::LpAddressMissing)
    } else if config.burn_address is None {
        Err(Error::BurnAddressMissing)
    } else if treasury is Err || lp is Err || burn is Err {
        Err(Error::Overflow)
    } else {
        Ok(
            EffectsView {
                transfers: payment(token, config.treasury->0, treasury->Ok_0) + payment(
                    token,
                    config.lp_address->0,
                    lp->Ok_0,
                ) + payment(token, config.burn_address->0, burn->Ok_0),
                events: seq![
                    Event::FeeSplit {
                        fee,
                        treasury: treasury->Ok_0,
                        lp: lp->Ok_0,
                        burn: burn->Ok_0,
                    },
                ],
            },
        )
    }
}

/// Sum of the amounts of a list of transfers.
pub open spec fn paid_out(transfers: Seq<Transfer>) -> int
    decreases transfers.len(),
{
    if transfers.len() == 0 {
        0
    } else {
        paid_out(transfers.drop_last()) + transfers.last().amount
    }
}

/// The parts of a fee add up to the whole fee, less what rounding leaves, which
/// is under three of the smallest unit.
pub proof fn lemma_fee_split_sum(config: Config, fee: i128, token: Address)
    requires
        config.fee_split.is_whole(),
        fee >= 0,
        fee_split(config, fee, token) is Ok,
    ensures
        fee - 2 <= paid_out(fee_split(config, fee, token)->Ok_0.transfers) <= fee,
{
    if fee != 0 {
        let t = config.fee_split.treasury_bps as int;
        let l = config.fee_split.lp_bps as int;
        let b = config.fee_split.burn_bps as int;
        let parts = fee_split(config, fee, token)->Ok_0.transfers;
        let f = fee as int;
        assert(f * t >= 0 && f * l >= 0 && f * b >= 0) by (nonlinear_arith)
            requires
                f >= 0,
                t >= 0,
                l >= 0,
                b >= 0,
        ;
        assert(f * t + f * l + f * b == f * 10000) by (nonlinear_arith)
            requires
                t + l + b == 10000,
        ;
        lemma_quotient_fits(f * t, BPS as int);
        lemma_quotient_fits(f * l, BPS as int);
        lemma_quotient_fits(f * b, BPS as int);
        let p1 = payment(
            token,
            config.treasury->0,
            fee_part(fee, config.fee_split.treasury_bps)->Ok_0,
        );
        let p2 = payment(
            token,
            config.lp_address->0,
            fee_part(fee, config.fee_split.lp_bps)->Ok_0,
        );
        let p3 = payment(
            token,
            config.burn_address->0,
            fee_part(fee, config.fee_split.burn_bps)->Ok_0,
        );
        reveal_with_fuel(paid_out, 2);
        lemma_paid_out_add(p1 + p2, p3);
        lemma_paid_out_add(p1, p2);
        assert(paid_out(p1) == f * t / 10000);
        assert(paid_out(p2) == f * l / 10000);
        assert(paid_out(p3) == f * b / 10000);
    }
}

/// The amounts of two lists of transfers add up.
pub proof fn lemma_paid_out_add(left: Seq<Transfer>, right: Seq<Transfer>)
    ensures
        paid_out(left + right) == paid_out(left) + paid_out(right),
    decreases right.len(),
{
    if right.len() == 0 {
        assert(left + right =~= left);
    } else {
        assert((left + right).drop_last() =~= left + right.drop_last());
        lemma_paid_out_add(left, right.drop_last());
    }
}

/// Why new shares of the fee are refused.
pub open spec fn split_error(treasury_bps: u32, lp_bps: u32, burn_bps: u32) -> Option<Error> {
    if treasury_bps + lp_bps + burn_bps > u32::MAX {
        Some(Error::Overflow)
    } else if treasury_bps + lp_bps + burn_bps != BPS {
        Some(Error::FeeSplitNotWhole)
    } else {
        None
    }
}

/// Pass shares of the fee that add up to one hundred percent.
fn check_split(treasury_bps: u32, lp_bps: u32, burn_bps: u32) -> (res: Result<FeeConfig, Error>)
    ensures
        match res {
            Ok(split) => {
                &&& split_error(treasury_bps, lp_bps, burn_bps) is None
                &&& split == (FeeConfig { treasury_bps, lp_bps, burn_bps })
            },
            Err(e) => split_error(treasury_bps, lp_bps, burn_bps) == Some(e),
        },
{
    let total: u64 = treasury_bps as u64 + lp_bps as u64 + burn_bps as u64;
    if total > u32::MAX as u64 {
        return Err(Error::Overflow);
    }
    if total != 10_000 {
        return Err(Error::FeeSplitNotWhole);
    }
    Ok(FeeConfig { treasury_bps, lp_bps, burn_bps })
}

/// The largest bet that a cap allows; a cap of zero allows any.
pub open spec fn effective_cap(max_amount: i128) -> i128 {
    if max_amount == 0 {
        i128::MAX
    } else {
        max_amount
    }
}

/// Why new bet limits are refused.
pub open spec fn limits_error(min_amount: i128, max_amount: i128) -> Option<Error> {
    if min_amount < 1 {
        Some(Error::MinBetTooSmall)
    } else if effective_cap(max_amount) < min_amount {
        Some(Error::MaxBetBelowMin)
    } else {
        None
    }
}

impl PredictionMarket {
    /// Distribute collected fees according to configured split, in whole units.
    ///
    /// Treasury, liquidity providers and burn address each get their basis
    /// points of the fee, rounded down; what is nothing is not transferred.
    pub fn distribute_fee_split(&self, fee_amount: i128, token: Address) -> (res: Result<
        Effects,
        Error,
    >)
        ensures
            match res {
                Ok(effects) => fee_split(self@.config, fee_amount, token) == Ok::<
                    EffectsView,
                    Error,
                >(effects@),
                Err(e) => fee_split(self@.config, fee_amount, token) == Err::<EffectsView, Error>(
                    e,
                ),
            },
    {
        let mut effects = Effects::none();
        if fee_amount == 0 {
            return Ok(effects);
        }
        let config = self.config.fee_split;
        let treasury_addr = match self.config.treasury {
            Some(a) => a,
            None => {
                return Err(Error::TreasuryMissing);
            },
        };
        let lp_addr = match self.config.lp_address {
            Some(a) => a,
            None => {
                return Err(Error::LpAddressMissing);
            },
        };
        let burn_addr = match self.config.burn_address {
            Some(a) => a,
            None => {
                return Err(Error::BurnAddressMissing);
            },
        };
        let treasury: i128 = cmuldiv(fee_amount, config.treasury_bps as i128, BPS)?;
        let lp: i128 = cmuldiv(fee_amount, config.lp_bps as i128, BPS)?;
        let burn: i128 = cmuldiv(fee_amount, config.burn_bps as i128, BPS)?;
        if treasury > 0 {
            effects.transfers.push(Transfer::pay(token, treasury_addr, treasury));
        }
        if lp > 0 {
            effects.transfers.push(Transfer::pay(token, lp_addr, lp));
        }
        if burn > 0 {
            effects.transfers.push(Transfer::pay(token, burn_addr, burn));
        }
        effects.events.push(Event::FeeSplit { fee: fee_amount, treasury, lp, burn });
        assert(effects@ =~= fee_split(self@.config, fee_amount, token)->Ok_0);
        Ok(effects)
    }

    /// Update the market creation fee configuration (FeeSetter or admin). A fee
    /// of zero disables fee collection entirely.
    pub fn update_fee(
        &mut self,
        caller: Address,
        new_fee: i128,
        new_destination: Address,
        new_mode: FeeMode,
    ) -> (res: Result<(), Error>)
        ensures
            ({
                let error = either(
                    role_error(old(self)@, caller, Role::FeeSetter),
                    if new_fee < 0 {
                        Some(Error::NegativeFee)
                    } else {
                        None
                    },
                );
                match res {
                    Ok(_) => {
                        &&& error is None
                        &&& final(self)@ == old(self)@.with_config(
                            (Config {
                                creation_fee: new_fee,
                                fee_destination: Some(new_destination),
                                fee_mode: new_mode,
                                ..old(self)@.config
                            }),
                        )
                    },
                    Err(e) => error == Some(e) && final(self)@ == old(self)@,
                }
            }),
            old(self)@.wf() ==> final(self)@.wf(),
    {
        self.require_role(caller, Role::FeeSetter)?;
        if new_fee < 0 {
            return Err(Error::NegativeFee);
        }
        self.config.creation_fee = new_fee;
        self.config.fee_destination = Some(new_destination);
        self.config.fee_mode = new_mode;
        Ok(())
    }

    /// Get the current creation fee configuration.
    /// Returns (fee_amount, fee_destination, fee_mode).
    pub fn get_fee_config(&self) -> (res: (i128, Option<Address>, FeeMode))
        ensures
            res == (
                self@.config.creation_fee,
                self@.config.fee_destination,
                self@.config.fee_mode,
            ),
    {
        (self.config.creation_fee, self.config.fee_destination, self.config.fee_mode)
    }

    /// Update the min/max bet caps (FeeSetter or admin).
    /// `min_amount` is the minimum bet in stroops (at least 1), `max_amount` the
    /// maximum (at least `min_amount`). Pass 0 for `max_amount` to remove the cap.
    pub fn update_bet_limits(
        &mut self,
        caller: Address,
        min_amount: i128,
        max_amount: i128,
    ) -> (res: Result<(), Error>)
        ensures
            ({
                let error = either(
                    role_error(old(self)@, caller, Role::FeeSetter),
                    limits_error(min_amount, max_amount),
                );
                match res {
                    Ok(_) => {
                        &&& error is None
                        &&& final(self)@ == old(self)@.with_config(
                            (Config {
                                min_bet: min_amount,
                                max_bet: effective_cap(max_amount),
                                ..old(self)@.config
                            }),
                        )
                    },
                    Err(e) => error == Some(e) && final(self)@ == old(self)@,
                }
            }),
            old(self)@.wf() ==> final(self)@.wf(),
    {
        self.require_role(caller, Role::FeeSetter)?;
        if min_amount < 1 {
            return Err(Error::MinBetTooSmall);
        }
        let effective_max: i128 = if max_amount == 0 {
            i128::MAX
        } else {
            max_amount
        };
        if effective_max < min_amount {
            return Err(Error::MaxBetBelowMin);
        }
        self.config.min_bet = min_amount;
        self.config.max_bet = effective_max;
        Ok(())
    }

    /// Get current bet limits. Returns (min_amount, max_amount).
    pub fn get_bet_limits(&self) -> (res: (i128, i128))
        ensures
            res == (self@.config.min_bet, self@.config.max_bet),
    {
        (self.config.min_bet, self.config.max_bet)
    }

    /// Configure fee distribution split between treasury, LPs, and burn address
    /// (FeeSetter or admin). The three shares must add up to 10000 basis points.
    pub fn configure_fee_split(
        &mut self,
        caller: Address,
        treasury_bps: u32,
        lp_bps: u32,
        burn_bps: u32,
        treasury_addr: Address,
        lp_addr: Address,
        burn_addr: Address,
    ) -> (res: Result<(), Error>)
        ensures
            ({
                let error = either(
                    role_error(old(self)@, caller, Role::FeeSetter),
                    split_error(treasury_bps, lp_bps, burn_bps),
                );
                match res {
                    Ok(_) => {
                        &&& error is None
                        &&& final(self)@ == old(self)@.with_config(
                            (Config {
                                fee_split: FeeConfig { treasury_bps, lp_bps, burn_bps },
                                treasury: Some(treasury_addr),
                                lp_address: Some(lp_addr),
                                burn_address: Some(burn_addr),
                                ..old(self)@.config
                            }),
                        )
                    },
                    Err(e) => error == Some(e) && final(self)@ == old(self)@,
                }
            }),
            old(self)@.wf() ==> final(self)@.wf(),
    {
        self.require_role(caller, Role::FeeSetter)?;
        let split = check_split(treasury_bps, lp_bps, burn_bps)?;
        self.config.fee_split = split;
        self.config.treasury = Some(treasury_addr);
        self.config.lp_address = Some(lp_addr);
        self.config.burn_address = Some(burn_addr);
        Ok(())
    }

    /// Update fee distribution split (FeeSetter or admin).
    pub fn update_fee_split(
        &mut self,
        caller: Address,
        treasury_bps: u32,
        lp_bps: u32,
        burn_bps: u32,
    ) -> (res: Result<(), Error>)
        ensures
            ({
                let error = either(
                    role_error(old(self)@, caller, Role::FeeSetter),
                    split_error(treasury_bps, lp_bps, burn_bps),
                );
                match res {
                    Ok(_) => {
                        &&& error is None
                        &&& final(self)@ == old(self)@.with_config(
                            (Config {
                                fee_split: FeeConfig { treasury_bps, lp_bps, burn_bps },
                                ..old(self)@.config
                            }),
                        )
                    },
                    Err(e) => error == Some(e) && final(self)@ == old(self)@,
                }
            }),
            old(self)@.wf() ==> final(self)@.wf(),
    {
        self.require_role(caller, Role::FeeSetter)?;
        let split = check_split(treasury_bps, lp_bps, burn_bps)?;
        self.config.fee_split = split;
        Ok(())
    }

    /// Update fee destination addresses (FeeSetter or admin).
    pub fn update_fee_addresses(
        &mut self,
        caller: Address,
        treasury_addr: Address,
        lp_addr: Address,
        burn_addr: Address,
    ) -> (res: Result<(), Error>)
        ensures
            match res {
                Ok(_) => {
                    &&& role_error(old(self)@, caller, Role::FeeSetter) is None
                    &&& final(self)@ == old(self)@.with_config(
                        (Config {
                            treasury: Some(treasury_addr),
                            lp_address: Some(lp_addr),
                            burn_address: Some(burn_addr),
                            ..old(self)@.config
                        }),
                    )
                },
                Err(e) => {
                    &&& role_error(old(self)@, caller, Role::FeeSetter) == Some(e)
                    &&& final(self)@ == old(self)@
                },
            },
            old(self)@.wf() ==> final(self)@.wf(),
    {
        self.require_role(caller, Role::FeeSetter)?;
        self.config.treasury = Some(treasury_addr);
        self.config.lp_address = Some(lp_addr);
        self.config.burn_address = Some(burn_addr);
        Ok(())
    }

    /// Get current fee split configuration.
    /// Returns (FeeConfig, treasury_addr, lp_addr, burn_addr).
    pub fn get_fee_split_config(&self) -> (res: Result<
        (FeeConfig, Address, Address, Address),
        Error,
    >)
        ensures
            res == (if self@.config.treasury is None {
                Err(Error::TreasuryMissing)
            } else if self@.config.lp_address is None {
                Err(Error::LpAddressMissing)
            } else if self@.config.burn_address is None {
                Err(Error::BurnAddressMissing)
            } else {
                Ok(
                    (
                        self@.config.fee_split,
                        self@.config.treasury->0,
                        self@.config.lp_address->0,
                        self@.config.burn_address->0,
                    ),
                )
            }),
    {
        match (self.config.treasury, self.config.lp_address, self.config.burn_address) {
            (None, _, _) => Err(Error::TreasuryMissing),
            (_, None, _) => Err(Error::LpAddressMissing),
            (_, _, None) => Err(Error::BurnAddressMissing),
            (Some(treasury), Some(lp), Some(burn)) => Ok(
                (self.config.fee_split, treasury, lp, burn),
            ),
        }
    }
}

} // verus!
