//! The vocabulary of the contract: addresses, roles, market data, and what a
//! call asks the ledger to do once it has succeeded.
use vstd::prelude::*;

verus! {

/// Longest share vector that the pricing rule takes.
pub const MAX_OUTCOMES: u32 = 8;

/// Maximum winners processed per `batch_distribute` call.
pub const MAX_BATCH_SIZE: u32 = 25;

/// Maximum recipients of one `batch_payout` call.
pub const MAX_PAYOUT_RECIPIENTS: u32 = 50;

/// Fee on leaving a position early, in basis points.
pub const EXIT_FEE_BPS: i128 = 50;

/// Time in seconds within which a resolution can be disputed, and for which a
/// dispute stays open.
pub const DISPUTE_WINDOW: u64 = 86_400;

/// Seconds between a proposed resolution and the moment it may be finalised.
pub const LIVENESS_WINDOW: u64 = 86_400;

/// Seconds between an oracle's proposal and the moment it may be settled.
pub const CHALLENGE_WINDOW: u64 = 86_400;

/// Seconds winners have to claim before what they left is swept (30 days).
pub const CLAIM_PERIOD: u64 = 2_592_000;

/// One hundred percent, in basis points.
pub const BPS: i128 = 10_000;

/// An account or contract on the ledger: the kind of address and its 32-byte
/// payload, read as two big-endian halves.
#[derive(Clone, Copy, Debug, PartialEq, Eq, Structural)]
pub struct Address {
    pub kind: u32,
    pub hi: u128,
    pub lo: u128,
}

impl Address {
    /// The ledger's order on addresses: by kind, then by payload.
    pub open spec fn precedes(self, other: Address) -> bool {
        ||| self.kind < other.kind
        ||| self.kind == other.kind && self.hi < other.hi
        ||| self.kind == other.kind && self.hi == other.hi && self.lo < other.lo
    }
}

/// Fee routing mode: burn (send to issuer/lock address) or transfer to DAO treasury.
#[derive(Clone, Copy, Debug, PartialEq, Eq, Structural)]
pub enum FeeMode {
    /// Send fee to a burn/lock address (e.g. token issuer with locked trustline).
    Burn,
    /// Transfer fee to the DAO treasury multisig account.
    Treasury,
}

/// Fee distribution configuration in basis points.
/// Total must equal 10000 (100%).
#[derive(Clone, Copy, Debug, PartialEq, Eq, Structural)]
pub struct FeeConfig {
    /// Basis points allocated to DAO treasury (0-10000)
    pub treasury_bps: u32,
    /// Basis points allocated to liquidity providers (0-10000)
    pub lp_bps: u32,
    /// Basis points allocated to burn address (0-10000)
    pub burn_bps: u32,
}

impl FeeConfig {
    /// The shares add up to one hundred percent.
    pub open spec fn is_whole(self) -> bool {
        self.treasury_bps + self.lp_bps + self.burn_bps == BPS
    }
}

/// Where a market stands in its life.
#[derive(Clone, Copy, Debug, PartialEq, Eq, Structural)]
pub enum MarketStatus {
    Active,
    Locked,
    Proposed,
    Disputed,
    /// Vote threshold crossed, paused for final admin review.
    ReReview,
    Resolved,
    /// Condition not met, full refunds enabled.
    Voided,
}

/// What an address may be trusted with.
#[derive(Clone, Copy, Debug, PartialEq, Eq, Structural)]
pub enum Role {
    SuperAdmin,
    FeeSetter,
    Pauser,
    Resolver,
    Oracle,
}

/// Whether the platform takes new markets and bets.
#[derive(Clone, Copy, Debug, PartialEq, Eq, Structural)]
pub enum AccessPlatformStatus {
    Active,
    Shutdown,
}

/// The ledger entries that the contract keeps.
#[derive(Clone, Copy, Debug, PartialEq, Eq, Structural)]
pub enum DataKey {
    Initialized,
    OracleAddress,
    Market(u64),
    /// Total shares per market.
    TotalShares(u64),
    /// Pause flag per market.
    IsPaused(u64),
    /// Global pause flag.
    IsPausedGlobal,
    /// Settlement fee paid flag.
    SettlementFeePaid(u64),
    /// Total funds swept from unclaimed payouts.
    VaultBalance,
    /// Timestamp when the market was resolved.
    ClaimDeadline(u64),
    /// Exact payout owed to each bettor.
    OriginalPayouts(u64),
    /// Whether a market's unclaimed funds have been swept.
    MarketSwept(u64),
    /// Creation fee amount in stroops; 0 disables it.
    CreationFee,
    /// Address that receives the creation fee.
    FeeDestination,
    /// Fee routing mode.
    FeeModeConfig,
    /// Maximum bet amount in stroops.
    MaxBetAmount,
    /// Minimum bet amount in stroops.
    MinBetAmount,
    /// Liquidity contributions per market.
    LpContribution(u64),
    /// Fee pool of the liquidity providers of a market.
    LpFeePool(u64),
    /// LMSR liquidity parameter b of a market.
    LmsrB(u64),
    /// Share quantities per outcome.
    OutcomeShares(u64),
    /// Dispute voting data.
    Dispute(u64),
    /// Refund-claimed flag per bettor per market.
    RefundClaimed(u64, Address),
    /// Per-user nonce for off-chain signatures.
    Nonce(Address),
    /// Total paid per bettor per market.
    UserCost(u64, Address),
    /// Fee split configuration.
    FeeSplitConfig,
    TreasuryAddress,
    LPAddress,
    BurnAddress,
    /// Claimed payouts per market.
    Claimed(u64),
    /// Payout claimed per user.
    PayoutClaimed(u64, Address),
    /// Per-outcome pool balances.
    OutcomePoolBalances(u64),
    /// Proposed outcome.
    ProposedOutcomeId(u64),
    /// Unlock timestamp for settlement.
    UnlockTimestamp(u64),
}

/// A ledger entry of one market: one of those above, or what is held of an
/// outcome.
#[derive(Clone, Copy, Debug, PartialEq, Eq, Structural)]
pub enum Entry {
    Data(DataKey),
    /// Shares per holder of an outcome.
    Position(u64, u32),
}

/// One side of a token transfer.
#[derive(Clone, Copy, Debug, PartialEq, Eq, Structural)]
pub enum Party {
    /// The prediction market contract itself.
    Contract,
    Account(Address),
}

/// A token transfer that the ledger has to perform for the call to stand.
#[derive(Clone, Copy, Debug, PartialEq, Eq, Structural)]
pub struct Transfer {
    pub token: Address,
    pub from: Party,
    pub to: Party,
    pub amount: i128,
}

impl Transfer {
    /// A payment out of the contract's own holdings.
    pub open spec fn spec_pay(token: Address, to: Address, amount: i128) -> Transfer {
        Transfer { token, from: Party::Contract, to: Party::Account(to), amount }
    }

    /// A payment out of the contract's own holdings.
    #[verifier::when_used_as_spec(spec_pay)]
    pub fn pay(token: Address, to: Address, amount: i128) -> (res: Transfer)
        ensures
            res == Transfer::spec_pay(token, to, amount),
    {
        Transfer { token, from: Party::Contract, to: Party::Account(to), amount }
    }

    /// A payment into the contract.
    pub open spec fn spec_collect(token: Address, from: Address, amount: i128) -> Transfer {
        Transfer { token, from: Party::Account(from), to: Party::Contract, amount }
    }

    /// A payment into the contract.
    #[verifier::when_used_as_spec(spec_collect)]
    pub fn collect(token: Address, from: Address, amount: i128) -> (res: Transfer)
        ensures
            res == Transfer::spec_collect(token, from, amount),
    {
        Transfer { token, from: Party::Account(from), to: Party::Contract, amount }
    }
}

/// What a call announces to off-chain observers.
#[derive(Clone, Copy, Debug, PartialEq, Eq, Structural)]
pub enum Event {
    ContractInitialized { admin: Address },
    FeeCollected { market_id: u64, creator: Address, destination: Address, amount: i128 },
    MarketCreated {
        market_id: u64,
        creator: Address,
        outcomes: u32,
        deadline: u64,
        token: Address,
        lmsr_b: i128,
        creation_fee: i128,
    },
    BetPlaced { market_id: u64, bettor: Address, option_index: u32, cost: i128, shares: i128 },
    LiquidityProvided { market_id: u64, provider: Address, amount: i128 },
    LpRewardClaimed { market_id: u64, provider: Address, reward: i128 },
    MarketPaused { market_id: u64, paused: bool },
    FeeSplit { fee: i128, treasury: i128, lp: i128, burn: i128 },
    MarketVoided { market_id: u64, condition_market_id: u64, condition_outcome: u32 },
    MarketResolved { market_id: u64, winning_outcome: u32, total_pool: i128, fee_bps: u32 },
    DisputeRaised { market_id: u64, disputer: Address, bond: i128 },
    DisputeOpened { market_id: u64, caller: Address },
    PayoutClaimed { market_id: u64, recipients: u32, total: i128 },
}

/// What the ledger has to do once a call has succeeded, in order.
pub struct Effects {
    pub transfers: Vec<Transfer>,
    pub events: Vec<Event>,
}

/// The sequences behind an [`Effects`].
#[verifier::ext_equal]
pub struct EffectsView {
    pub transfers: Seq<Transfer>,
    pub events: Seq<Event>,
}

impl EffectsView {
    /// These effects, and after them others.
    pub open spec fn and(self, more: EffectsView) -> EffectsView {
        EffectsView {
            transfers: self.transfers + more.transfers,
            events: self.events + more.events,
        }
    }
}

impl View for Effects {
    type V = EffectsView;

    open spec fn view(&self) -> EffectsView {
        EffectsView { transfers: self.transfers@, events: self.events@ }
    }
}

impl Effects {
    /// Nothing to do.
    pub fn none() -> (res: Effects)
        ensures
            res@ == (EffectsView { transfers: seq![], events: seq![] }),
    {
        Effects { transfers: Vec::new(), events: Vec::new() }
    }

    /// One announcement.
    pub fn event(event: Event) -> (res: Effects)
        ensures
            res@ == (EffectsView { transfers: seq![], events: seq![event] }),
    {
        let mut res = Effects::none();
        res.events.push(event);
        res
    }

    /// One transfer, and nothing announced.
    pub fn transfer(transfer: Transfer) -> (res: Effects)
        ensures
            res@ == (EffectsView { transfers: seq![transfer], events: seq![] }),
    {
        let mut res = Effects::none();
        res.transfers.push(transfer);
        res
    }

    /// Do what another call asks for as well, afterwards.
    pub fn append(&mut self, more: Effects)
        ensures
            final(self)@ == old(self)@.and(more@),
    {
        let mut more = more;
        self.transfers.append(&mut more.transfers);
        self.events.append(&mut more.events);
    }

    /// One transfer and its announcement.
    pub fn transfer_and_event(transfer: Transfer, event: Event) -> (res: Effects)
        ensures
            res@ == (EffectsView { transfers: seq![transfer], events: seq![event] }),
    {
        let mut res = Effects::none();
        res.transfers.push(transfer);
        res.events.push(event);
        res
    }
}

/// Why a call is refused. A refused call changes nothing.
#[derive(Clone, Copy, Debug, PartialEq, Eq, Structural)]
pub enum Error {
    AlreadyInitialized,
    AccessDenied(Role),
    CannotRevokeSuperAdmin,
    PlatformShutDown,
    LiquidityParameterNotPositive,
    MarketExists,
    TooFewOptions,
    TooManyOptions,
    DeadlineNotInFuture,
    FeeDestinationMissing,
    InsufficientFeeBalance,
    InvalidNonce,
    AmountNotPositive,
    BetBelowMinimum,
    BetExceedsCap,
    MarketPaused,
    MarketNotFound,
    MarketNotActive,
    DeadlinePassed,
    InvalidOption,
    TokenNotWhitelisted,
    CostNotPositive,
    /// A sum, product or quotient that the machine integers cannot hold.
    Overflow,
    MarketNotResolved,
    NoFeePool,
    NoLpContribution,
    RewardRoundsToZero,
    NegativeFee,
    MinBetTooSmall,
    MaxBetBelowMin,
    FeeSplitNotWhole,
    TreasuryMissing,
    LpAddressMissing,
    BurnAddressMissing,
    MarketNotLocked,
    InvalidOutcome,
    MarketNotProposed,
    UnlockTimestampMissing,
    ChallengeTimerRunning,
    ProposedOutcomeMissing,
    ConditionMarketNotFound,
    ConditionMarketUnresolved,
    BondNotPositive,
    NotInProposedState,
    NotProposedOrDisputed,
    LivenessWindowOpen,
    NotResolvedForDispute,
    DisputeWindowClosed,
    NotTokenHolder,
    DisputeAlreadyOpened,
    DisputeNotFound,
    DisputeNotActive,
    VotingDeadlinePassed,
    AlreadyVoted,
    NoVotingWeight,
    DisputeAlreadyClosed,
    VotingInProgress,
    AlreadySwept,
    ClaimDeadlineMissing,
    ClaimPeriodOpen,
    VaultEmpty,
    NoPayout,
    AlreadyClaimed,
    InsufficientVault,
    Reentrancy,
    BatchSizeOutOfRange,
    SettlementBlocked,
    TooManyRecipients,
    PayoutsPaused,
    NoWinners,
    InsufficientPosition,
    PayoutNotPositive,
    MarketNotVoided,
    AlreadyRefunded,
    NothingToRefund,
}

/// The first of two reasons to refuse, where there is one.
pub open spec fn either(first: Option<Error>, second: Option<Error>) -> Option<Error> {
    if first is Some {
        first
    } else {
        second
    }
}

} // verus!
