//! Who may act in which role, and what assigning a role changes.
use vstd::prelude::*;

use crate::access::{role_error, shutdown_error, with_holder};
use crate::betting::nonce_error;
use crate::state::{Config, ContractState};
use crate::types::{AccessPlatformStatus, Address, Error, Role};

verus! {

/// A caller may act in a role if and only if it was assigned the role; the
/// administrator may also set fees and resolve markets, and nothing else.
pub proof fn lemma_roles_are_exclusive(s: ContractState, caller: Address)
    ensures
        role_error(s, caller, Role::SuperAdmin) is None <==> s.config.super_admin == Some(caller),
        role_error(s, caller, Role::FeeSetter) is None <==> s.config.fee_setter == Some(caller)
            || s.config.super_admin == Some(caller),
        role_error(s, caller, Role::Pauser) is None <==> s.config.pauser == Some(caller),
        role_error(s, caller, Role::Resolver) is None <==> s.config.resolver == Some(caller)
            || s.config.super_admin == Some(caller),
        role_error(s, caller, Role::Oracle) is None <==> s.config.oracle == Some(caller),
        forall|role: Role|
            (#[trigger] role_error(s, caller, role)) is Some ==> role_error(s, caller, role)
                == Some(Error::AccessDenied(role)),
{
}

/// Assigning or revoking a role changes who holds that role, and nothing else.
pub proof fn lemma_assignment_changes_one_role(
    config: Config,
    role: Role,
    holder: Option<Address>,
)
    ensures
        ({
            let after = with_holder(config, role, holder);
            &&& after.super_admin == (if role == Role::SuperAdmin {
                holder
            } else {
                config.super_admin
            })
            &&& after.fee_setter == (if role == Role::FeeSetter {
                holder
            } else {
                config.fee_setter
            })
            &&& after.pauser == (if role == Role::Pauser {
                holder
            } else {
                config.pauser
            })
            &&& after.resolver == (if role == Role::Resolver {
                holder
            } else {
                config.resolver
            })
            &&& after.oracle == (if role == Role::Oracle {
                holder
            } else {
                config.oracle
            })
            &&& after == (Config {
                super_admin: after.super_admin,
                fee_setter: after.fee_setter,
                pauser: after.pauser,
                resolver: after.resolver,
                oracle: after.oracle,
                ..config
            })
        }),
{
}

/// Only a platform that was shut down refuses for that reason.
pub proof fn lemma_shutdown_refuses(s: ContractState)
    ensures
        shutdown_error(s) is Some <==> s.config.status == AccessPlatformStatus::Shutdown,
        shutdown_error(s) matches Some(e) ==> e == Error::PlatformShutDown,
{
}

/// A signed bet carries the number of signed bets that the bettor has placed
/// before.
pub proof fn lemma_nonce_counts(s: ContractState, bettor: Address, nonce: u64)
    ensures
        nonce_error(s, bettor, nonce) is None <==> nonce < u64::MAX && nonce == (
        if s.nonces.contains_key(bettor) {
            s.nonces[bettor]
        } else {
            0
        }),
        nonce_error(s, bettor, nonce) == Some(Error::Overflow) ==> nonce == u64::MAX,
{
}

} // verus!
