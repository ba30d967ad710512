//! What a refused caller is told.
use vstd::prelude::*;

use crate::types::{Error, Role};

verus! {

impl Error {
    /// The text that names this refusal.
    pub open spec fn text(self) -> Seq<char> {
        match self {
            Error::AccessDenied(Role::SuperAdmin) => "AccessDenied: caller does not hold role SuperAdmin"@,
            Error::AccessDenied(Role::FeeSetter) => "AccessDenied: caller does not hold role FeeSetter"@,
            Error::AccessDenied(Role::Pauser) => "AccessDenied: caller does not hold role Pauser"@,
            Error::AccessDenied(Role::Resolver) => "AccessDenied: caller does not hold role Resolver"@,
            Error::AccessDenied(Role::Oracle) => "AccessDenied: caller does not hold role Oracle"@,
            Error::AlreadyInitialized => "Contract already initialized"@,
            Error::CannotRevokeSuperAdmin => "SuperAdmin cannot revoke their own role"@,
            Error::PlatformShutDown => "Platform is shut down"@,
            Error::LiquidityParameterNotPositive => "lmsr_b must be positive"@,
            Error::MarketExists => "Market already exists"@,
            Error::TooFewOptions => "Need at least 2 options"@,
            Error::TooManyOptions => "Maximum 8 outcomes allowed"@,
            Error::DeadlineNotInFuture => "Deadline must be in the future"@,
            Error::FeeDestinationMissing => "FeeDestination not configured"@,
            Error::InsufficientFeeBalance => "InsufficientFeeBalance"@,
            Error::InvalidNonce => "Invalid signature nonce"@,
            Error::AmountNotPositive => "Amount must be positive"@,
            Error::BetBelowMinimum => "bet below minimum"@,
            Error::BetExceedsCap => "bet exceeds cap"@,
            Error::MarketPaused => "Market is paused"@,
            Error::MarketNotFound => "Market not found"@,
            Error::MarketNotActive => "Market not active"@,
            Error::DeadlinePassed => "Market deadline has passed"@,
            Error::InvalidOption => "Invalid option index"@,
            Error::TokenNotWhitelisted => "Token not whitelisted"@,
            Error::CostNotPositive => "cost delta must be positive"@,
            Error::Overflow => "arithmetic overflow"@,
            Error::MarketNotResolved => "Market not resolved yet"@,
            Error::NoFeePool => "No fee pool for this market"@,
            Error::NoLpContribution => "No LP contribution found"@,
            Error::RewardRoundsToZero => "Reward rounds to zero"@,
            Error::NegativeFee => "Fee must be non-negative"@,
            Error::MinBetTooSmall => "min must be >= 1"@,
            Error::MaxBetBelowMin => "max must be >= min"@,
            Error::FeeSplitNotWhole => "BPS split must total 10000 (100%)"@,
            Error::TreasuryMissing => "Treasury address not configured"@,
            Error::LpAddressMissing => "LP address not configured"@,
            Error::BurnAddressMissing => "Burn address not configured"@,
            Error::MarketNotLocked => "Market not locked"@,
            Error::InvalidOutcome => "Invalid outcome index"@,
            Error::MarketNotProposed => "Market not proposed"@,
            Error::UnlockTimestampMissing => "No unlock timestamp"@,
            Error::ChallengeTimerRunning => "Challenge timer has not expired"@,
            Error::ProposedOutcomeMissing => "No proposed outcome"@,
            Error::ConditionMarketNotFound => "condition market not found"@,
            Error::ConditionMarketUnresolved => "condition market not yet resolved"@,
            Error::BondNotPositive => "Bond must be positive"@,
            Error::NotInProposedState => "Market not in Proposed state"@,
            Error::NotProposedOrDisputed => "Market must be proposed or disputed to resolve"@,
            Error::LivenessWindowOpen => "Liveness window has not elapsed"@,
            Error::NotResolvedForDispute => "Market must be resolved to open a dispute"@,
            Error::DisputeWindowClosed => "Dispute window closed"@,
            Error::NotTokenHolder => "Only token holders can open a dispute"@,
            Error::DisputeAlreadyOpened => "Dispute already opened"@,
            Error::DisputeNotFound => "No dispute found"@,
            Error::DisputeNotActive => "Dispute is not active"@,
            Error::VotingDeadlinePassed => "Voting deadline passed"@,
            Error::AlreadyVoted => "Already voted"@,
            Error::NoVotingWeight => "No voting weight"@,
            Error::DisputeAlreadyClosed => "Dispute already closed"@,
            Error::VotingInProgress => "Voting still in progress"@,
            Error::AlreadySwept => "Market already swept"@,
            Error::ClaimDeadlineMissing => "No claim deadline"@,
            Error::ClaimPeriodOpen => "Claim deadline not reached (30 days required)"@,
            Error::VaultEmpty => "No funds in vault to invest"@,
            Error::NoPayout => "No payout for this address"@,
            Error::AlreadyClaimed => "Already claimed"@,
            Error::InsufficientVault => "Insufficient vault balance"@,
            Error::Reentrancy => "Reentrancy detected"@,
            Error::BatchSizeOutOfRange => "batch_size must be 1..=MAX_BATCH_SIZE"@,
            Error::SettlementBlocked => "Settlement blocked during 24-hour challenge period"@,
            Error::TooManyRecipients => "Batch size must not exceed 50 recipients"@,
            Error::PayoutsPaused => "Payouts paused during an active dispute"@,
            Error::NoWinners => "No winners to pay out"@,
            Error::InsufficientPosition => "Insufficient position balance"@,
            Error::PayoutNotPositive => "payout must be positive"@,
            Error::MarketNotVoided => "Market is not voided"@,
            Error::AlreadyRefunded => "Already refunded"@,
            Error::NothingToRefund => "No position found or zero contribution"@,
        }
    }

    /// The text that names this refusal.
    pub fn message(self) -> (res: &'static str)
        ensures
            res@ == self.text(),
    {
        match self {
            Error::AccessDenied(Role::SuperAdmin) => "AccessDenied: caller does not hold role SuperAdmin",
            Error::AccessDenied(Role::FeeSetter) => "AccessDenied: caller does not hold role FeeSetter",
            Error::AccessDenied(Role::Pauser) => "AccessDenied: caller does not hold role Pauser",
            Error::AccessDenied(Role::Resolver) => "AccessDenied: caller does not hold role Resolver",
            Error::AccessDenied(Role::Oracle) => "AccessDenied: caller does not hold role Oracle",
            Error::AlreadyInitialized => "Contract already initialized",
            Error::CannotRevokeSuperAdmin => "SuperAdmin cannot revoke their own role",
            Error::PlatformShutDown => "Platform is shut down",
            Error::LiquidityParameterNotPositive => "lmsr_b must be positive",
            Error::MarketExists => "Market already exists",
            Error::TooFewOptions => "Need at least 2 options",
            Error::TooManyOptions => "Maximum 8 outcomes allowed",
            Error::DeadlineNotInFuture => "Deadline must be in the future",
            Error::FeeDestinationMissing => "FeeDestination not configured",
            Error::InsufficientFeeBalance => "InsufficientFeeBalance",
            Error::InvalidNonce => "Invalid signature nonce",
            Error::AmountNotPositive => "Amount must be positive",
            Error::BetBelowMinimum => "bet below minimum",
            Error::BetExceedsCap => "bet exceeds cap",
            Error::MarketPaused => "Market is paused",
            Error::MarketNotFound => "Market not found",
            Error::MarketNotActive => "Market not active",
            Error::DeadlinePassed => "Market deadline has passed",
            Error::InvalidOption => "Invalid option index",
            Error::TokenNotWhitelisted => "Token not whitelisted",
            Error::CostNotPositive => "cost delta must be positive",
            Error::Overflow => "arithmetic overflow",
            Error::MarketNotResolved => "Market not resolved yet",
            Error::NoFeePool => "No fee pool for this market",
            Error::NoLpContribution => "No LP contribution found",
            Error::RewardRoundsToZero => "Reward rounds to zero",
            Error::NegativeFee => "Fee must be non-negative",
            Error::MinBetTooSmall => "min must be >= 1",
            Error::MaxBetBelowMin => "max must be >= min",
            Error::FeeSplitNotWhole => "BPS split must total 10000 (100%)",
            Error::TreasuryMissing => "Treasury address not configured",
            Error::LpAddressMissing => "LP address not configured",
            Error::BurnAddressMissing => "Burn address not configured",
            Error::MarketNotLocked => "Market not locked",
            Error::InvalidOutcome => "Invalid outcome index",
            Error::MarketNotProposed => "Market not proposed",
            Error::UnlockTimestampMissing => "No unlock timestamp",
            Error::ChallengeTimerRunning => "Challenge timer has not expired",
            Error::ProposedOutcomeMissing => "No proposed outcome",
            Error::ConditionMarketNotFound => "condition market not found",
            Error::ConditionMarketUnresolved => "condition market not yet resolved",
            Error::BondNotPositive => "Bond must be positive",
            Error::NotInProposedState => "Market not in Proposed state",
            Error::NotProposedOrDisputed => "Market must be proposed or disputed to resolve",
            Error::LivenessWindowOpen => "Liveness window has not elapsed",
            Error::NotResolvedForDispute => "Market must be resolved to open a dispute",
            Error::DisputeWindowClosed => "Dispute window closed",
            Error::NotTokenHolder => "Only token holders can open a dispute",
            Error::DisputeAlreadyOpened => "Dispute already opened",
            Error::DisputeNotFound => "No dispute found",
            Error::DisputeNotActive => "Dispute is not active",
            Error::VotingDeadlinePassed => "Voting deadline passed",
            Error::AlreadyVoted => "Already voted",
            Error::NoVotingWeight => "No voting weight",
            Error::DisputeAlreadyClosed => "Dispute already closed",
            Error::VotingInProgress => "Voting still in progress",
            Error::AlreadySwept => "Market already swept",
            Error::ClaimDeadlineMissing => "No claim deadline",
            Error::ClaimPeriodOpen => "Claim deadline not reached (30 days required)",
            Error::VaultEmpty => "No funds in vault to invest",
            Error::NoPayout => "No payout for this address",
            Error::AlreadyClaimed => "Already claimed",
            Error::InsufficientVault => "Insufficient vault balance",
            Error::Reentrancy => "Reentrancy detected",
            Error::BatchSizeOutOfRange => "batch_size must be 1..=MAX_BATCH_SIZE",
            Error::SettlementBlocked => "Settlement blocked during 24-hour challenge period",
            Error::TooManyRecipients => "Batch size must not exceed 50 recipients",
            Error::PayoutsPaused => "Payouts paused during an active dispute",
            Error::NoWinners => "No winners to pay out",
            Error::InsufficientPosition => "Insufficient position balance",
            Error::PayoutNotPositive => "payout must be positive",
            Error::MarketNotVoided => "Market is not voided",
            Error::AlreadyRefunded => "Already refunded",
            Error::NothingToRefund => "No position found or zero contribution",
        }
    }
}

} // verus!
