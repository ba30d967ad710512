//! A prediction market contract: markets priced by a logarithmic scoring rule,
//! settled by an oracle or a resolver, and paid out from a shared pool.
//!
//! A [`PredictionMarket`] holds what the contract remembers. Each call checks
//! its arguments against it, and either refuses with an [`Error`] and changes
//! nothing, or changes it and returns the [`Effects`] that the ledger has to
//! perform: token transfers and announcements.

pub mod access;
pub mod access_laws;
pub mod amount_laws;
pub mod betting;
pub mod checked_math;
pub mod codec;
pub mod dispute_laws;
pub mod disputes;
pub mod exponential;
pub mod fee_laws;
pub mod fees;
pub mod holdings;
pub mod host;
pub mod laws;
pub mod lifecycle_laws;
pub mod lmsr;
pub mod market;
pub mod math;
pub mod messages;
pub mod payout_laws;
pub mod payouts;
pub mod pricing;
pub mod queries;
pub mod record_keeping_laws;
pub mod record_laws;
pub mod scoring_laws;
pub mod soundness;
pub mod state;
pub mod trade_laws;
pub mod types;
pub mod vault;
pub mod vault_laws;

pub use crate::fees::calculate_dynamic_fee;
pub use crate::state::{
    Config, DisputeData, Market, MarketRecord, Markets, PauseFlags, PredictionMarket,
};
pub use crate::types::{
    AccessPlatformStatus, Address, DataKey, Effects, Entry, Error, Event, FeeConfig, FeeMode,
    MarketStatus, Party, Role, Transfer, DISPUTE_WINDOW, EXIT_FEE_BPS, LIVENESS_WINDOW,
    MAX_BATCH_SIZE,
};
