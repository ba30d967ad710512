//! Who may do what: set-up, roles, pausing, shutdown and the reentrancy lock.
use vstd::prelude::*;

use crate::math::{be_value, scalars_match, Scalar};
use crate::state::{Config, ContractState, PredictionMarket};
use crate::types::{AccessPlatformStatus, Address, Effects, EffectsView, Error, Event, Role};

verus! {

/// Refusal of a caller who may not act in a role.
pub open spec fn role_error(s: ContractState, caller: Address, role: Role) -> Option<Error> {
    if s.may_act(caller, role) {
        None
    } else {
        Some(Error::AccessDenied(role))
    }
}

/// Refusal of what a shut-down platform does not do.
pub open spec fn shutdown_error(s: ContractState) -> Option<Error> {
    if s.config.status == AccessPlatformStatus::Shutdown {
        Some(Error::PlatformShutDown)
    } else {
        None
    }
}

/// The settings with a role given to an address, or to nobody.
pub open spec fn with_holder(config: Config, role: Role, holder: Option<Address>) -> Config {
    match role {
        Role::SuperAdmin => Config { super_admin: holder, ..config },
        Role::FeeSetter => Config { fee_setter: holder, ..config },
        Role::Pauser => Config { pauser: holder, ..config },
        Role::Resolver => Config { resolver: holder, ..config },
        Role::Oracle => Config { oracle: holder, ..config },
    }
}

/// Whether two optional addresses are the same one.
fn is_holder(holder: Option<Address>, caller: Address) -> (res: bool)
    ensures
        res == (holder == Some(caller)),
{
    match holder {
        Some(h) => h == caller,
        None => false,
    }
}

impl PredictionMarket {
    /// Pass a caller who may act in a role.
    pub fn require_role(&self, caller: Address, role: Role) -> (res: Result<(), Error>)
        ensures
            match res {
                Ok(_) => role_error(self@, caller, role) is None,
                Err(e) => role_error(self@, caller, role) == Some(e),
            },
    {
        if is_holder(self.get_role(role), caller) {
            return Ok(());
        }
        let shared = match role {
            Role::FeeSetter => true,
            Role::Resolver => true,
            _ => false,
        };
        if shared && is_holder(self.config.super_admin, caller) {
            Ok(())
        } else {
            Err(Error::AccessDenied(role))
        }
    }

    /// Pass while the platform is not shut down.
    pub fn check_platform_active(&self) -> (res: Result<(), Error>)
        ensures
            match res {
                Ok(_) => shutdown_error(self@) is None,
                Err(e) => shutdown_error(self@) == Some(e),
            },
    {
        if self.config.status == AccessPlatformStatus::Shutdown {
            Err(Error::PlatformShutDown)
        } else {
            Ok(())
        }
    }

    /// Initialize contract with admin address.
    pub fn initialize(&mut self, admin: Address) -> (res: Result<Effects, Error>)
        ensures
            match res {
                Ok(effects) => {
                    &&& !old(self)@.config.initialized
                    &&& final(self)@ == old(self)@.with_config(
                        (Config {
                            initialized: true,
                            super_admin: Some(admin),
                            legacy_admin: Some(admin),
                            status: AccessPlatformStatus::Active,
                            ..old(self)@.config
                        }),
                    )
                    &&& effects@ == (EffectsView {
                        transfers: seq![],
                        events: seq![Event::ContractInitialized { admin }],
                    })
                },
                Err(e) => {
                    &&& old(self)@.config.initialized
                    &&& e == Error::AlreadyInitialized
                    &&& final(self)@ == old(self)@
                },
            },
            old(self)@.wf() ==> final(self)@.wf(),
    {
        if self.config.initialized {
            return Err(Error::AlreadyInitialized);
        }
        self.config.initialized = true;
        self.config.super_admin = Some(admin);
        self.config.legacy_admin = Some(admin);
        self.config.status = AccessPlatformStatus::Active;
        Ok(Effects::event(Event::ContractInitialized { admin }))
    }

    /// Give a role to an address, or to nobody.
    fn set_holder(&mut self, role: Role, holder: Option<Address>)
        ensures
            final(self)@ == old(self)@.with_config(
                with_holder(old(self)@.config, role, holder),
            ),
    {
        match role {
            Role::SuperAdmin => {
                self.config.super_admin = holder;
            },
            Role::FeeSetter => {
                self.config.fee_setter = holder;
            },
            Role::Pauser => {
                self.config.pauser = holder;
            },
            Role::Resolver => {
                self.config.resolver = holder;
            },
            Role::Oracle => {
                self.config.oracle = holder;
            },
        }
    }

    /// Assign a role to an address. Only SuperAdmin may call this.
    pub fn assign_role(&mut self, caller: Address, role: Role, address: Address) -> (res: Result<
        (),
        Error,
    >)
        ensures
            match res {
                Ok(_) => {
                    &&& role_error(old(self)@, caller, Role::SuperAdmin) is None
                    &&& final(self)@ == old(self)@.with_config(
                        with_holder(old(self)@.config, role, Some(address)),
                    )
                },
                Err(e) => {
                    &&& role_error(old(self)@, caller, Role::SuperAdmin) == Some(e)
                    &&& final(self)@ == old(self)@
                },
            },
            old(self)@.wf() ==> final(self)@.wf(),
    {
        match self.require_role(caller, Role::SuperAdmin) {
            Err(e) => Err(e),
            Ok(_) => {
                self.set_holder(role, Some(address));
                Ok(())
            },
        }
    }

    /// Revoke a role (remove its mapping). Only SuperAdmin may call this.
    /// SuperAdmin cannot revoke their own role.
    pub fn revoke_role(&mut self, caller: Address, role: Role) -> (res: Result<(), Error>)
        ensures
            match res {
                Ok(_) => {
                    &&& role_error(old(self)@, caller, Role::SuperAdmin) is None
                    &&& role != Role::SuperAdmin
                    &&& final(self)@ == old(self)@.with_config(
                        with_holder(old(self)@.config, role, None),
                    )
                },
                Err(e) => {
                    &&& e == (match role_error(old(self)@, caller, Role::SuperAdmin) {
                        Some(denied) => denied,
                        None => Error::CannotRevokeSuperAdmin,
                    })
                    &&& role_error(old(self)@, caller, Role::SuperAdmin) is None ==> role
                        == Role::SuperAdmin
                    &&& final(self)@ == old(self)@
                },
            },
            old(self)@.wf() ==> final(self)@.wf(),
    {
        match self.require_role(caller, Role::SuperAdmin) {
            Err(e) => Err(e),
            Ok(_) => {
                if role == Role::SuperAdmin {
                    Err(Error::CannotRevokeSuperAdmin)
                } else {
                    self.set_holder(role, None);
                    Ok(())
                }
            },
        }
    }

    /// Read the address currently assigned to a role (returns None if unset).
    pub fn get_role(&self, role: Role) -> (res: Option<Address>)
        ensures
            res == self@.holder(role),
    {
        match role {
            Role::SuperAdmin => self.config.super_admin,
            Role::FeeSetter => self.config.fee_setter,
            Role::Pauser => self.config.pauser,
            Role::Resolver => self.config.resolver,
            Role::Oracle => self.config.oracle,
        }
    }

    /// Update the whitelist status of a token (FeeSetter only).
    pub fn set_token_whitelist(
        &mut self,
        caller: Address,
        token: Address,
        is_whitelisted: bool,
    ) -> (res: Result<(), Error>)
        ensures
            match res {
                Ok(_) => {
                    &&& role_error(old(self)@, caller, Role::FeeSetter) is None
                    &&& final(self)@ == (ContractState {
                        whitelist: old(self)@.whitelist.insert(token, is_whitelisted),
                        ..old(self)@
                    })
                },
                Err(e) => {
                    &&& role_error(old(self)@, caller, Role::FeeSetter) == Some(e)
                    &&& final(self)@ == old(self)@
                },
            },
            old(self)@.wf() ==> final(self)@.wf(),
    {
        match self.require_role(caller, Role::FeeSetter) {
            Err(e) => Err(e),
            Ok(_) => {
                self.whitelist.set(token, is_whitelisted);
                Ok(())
            },
        }
    }

    /// Pause or unpause a market (Pauser only).
    pub fn set_paused(&mut self, caller: Address, market_id: u64, paused: bool) -> (res: Result<
        Effects,
        Error,
    >)
        ensures
            match res {
                Ok(effects) => {
                    &&& role_error(old(self)@, caller, Role::Pauser) is None
                    &&& final(self)@ == (ContractState {
                        paused: old(self)@.paused.insert(market_id, paused),
                        ..old(self)@
                    })
                    &&& effects@ == (EffectsView {
                        transfers: seq![],
                        events: seq![Event::MarketPaused { market_id, paused }],
                    })
                },
                Err(e) => {
                    &&& role_error(old(self)@, caller, Role::Pauser) == Some(e)
                    &&& final(self)@ == old(self)@
                },
            },
            old(self)@.wf() ==> final(self)@.wf(),
    {
        match self.require_role(caller, Role::Pauser) {
            Err(e) => Err(e),
            Ok(_) => {
                self.paused.set(market_id, paused);
                Ok(Effects::event(Event::MarketPaused { market_id, paused }))
            },
        }
    }

    /// Graceful shutdown / re-activation (SuperAdmin only).
    pub fn set_global_status(&mut self, caller: Address, active: bool) -> (res: Result<(), Error>)
        ensures
            match res {
                Ok(_) => {
                    &&& role_error(old(self)@, caller, Role::SuperAdmin) is None
                    &&& final(self)@ == old(self)@.with_config(
                        (Config {
                            status: if active {
                                AccessPlatformStatus::Active
                            } else {
                                AccessPlatformStatus::Shutdown
                            },
                            ..old(self)@.config
                        }),
                    )
                },
                Err(e) => {
                    &&& role_error(old(self)@, caller, Role::SuperAdmin) == Some(e)
                    &&& final(self)@ == old(self)@
                },
            },
            old(self)@.wf() ==> final(self)@.wf(),
    {
        match self.require_role(caller, Role::SuperAdmin) {
            Err(e) => Err(e),
            Ok(_) => {
                self.config.status = if active {
                    AccessPlatformStatus::Active
                } else {
                    AccessPlatformStatus::Shutdown
                };
                Ok(())
            },
        }
    }

    /// Read the current global platform status.
    pub fn get_global_status(&self) -> (res: bool)
        ensures
            res == (self@.config.status == AccessPlatformStatus::Active),
    {
        self.config.status == AccessPlatformStatus::Active
    }

    /// Verifies ZK proofs for oracle resolution (admin-only).
    ///
    /// Both scalars are brought to the canonical range `[0, modulus)` before
    /// they are compared, so that `s + k * modulus` matches `s`.
    pub fn verify_proof(
        &self,
        caller: Address,
        proof_scalar: &[u8; 32],
        expected: &[u8; 32],
        modulus: Scalar,
    ) -> (res: Result<bool, Error>)
        requires
            modulus@ > 0,
        ensures
            match res {
                Ok(same) => {
                    &&& role_error(self@, caller, Role::SuperAdmin) is None
                    &&& same == (be_value(proof_scalar@) % modulus@ == be_value(expected@)
                        % modulus@)
                },
                Err(e) => role_error(self@, caller, Role::SuperAdmin) == Some(e),
            },
    {
        match self.require_role(caller, Role::SuperAdmin) {
            Err(e) => Err(e),
            Ok(_) => Ok(scalars_match(proof_scalar, expected, modulus)),
        }
    }

    /// Take the reentrancy lock, which is held while a payout is under way.
    pub fn acquire_reentrancy_lock(&mut self) -> (res: Result<(), Error>)
        ensures
            match res {
                Ok(_) => {
                    &&& !old(self)@.config.locked
                    &&& final(self)@ == old(self)@.with_config(
                        (Config { locked: true, ..old(self)@.config }),
                    )
                },
                Err(e) => {
                    &&& old(self)@.config.locked
                    &&& e == Error::Reentrancy
                    &&& final(self)@ == old(self)@
                },
            },
            old(self)@.wf() ==> final(self)@.wf(),
    {
        if self.config.locked {
            return Err(Error::Reentrancy);
        }
        self.config.locked = true;
        Ok(())
    }

    /// Give the reentrancy lock back.
    pub fn release_reentrancy_lock(&mut self)
        ensures
            final(self)@ == old(self)@.with_config(
                (Config { locked: false, ..old(self)@.config }),
            ),
            old(self)@.wf() ==> final(self)@.wf(),
    {
        self.config.locked = false;
    }
}

} // verus!
