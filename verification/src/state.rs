//! What the contract remembers: its settings and its markets.
//!
//! A [`PredictionMarket`] holds the ledger entries that a call reads and
//! writes. Its view, a [`ContractState`], is what contracts speak of.
use std::collections::BTreeMap;

use vstd::prelude::*;

use crate::holdings::{amount_of, total, Balances, Counters, Flags, PoolBalances, Shares};
use crate::types::{
    AccessPlatformStatus, Address, FeeConfig, FeeMode, MarketStatus, Role, MAX_OUTCOMES,
};

verus! {

/// The settings of the platform and its vault.
#[derive(Clone, Copy, Debug, PartialEq, Eq, Structural)]
pub struct Config {
    pub initialized: bool,
    /// Set while a payout is under way.
    pub locked: bool,
    pub status: AccessPlatformStatus,
    /// Address of the administrator as older readers look it up.
    pub legacy_admin: Option<Address>,
    pub super_admin: Option<Address>,
    pub fee_setter: Option<Address>,
    pub pauser: Option<Address>,
    pub resolver: Option<Address>,
    pub oracle: Option<Address>,
    pub creation_fee: i128,
    pub fee_destination: Option<Address>,
    pub fee_mode: FeeMode,
    pub min_bet: i128,
    pub max_bet: i128,
    pub fee_split: FeeConfig,
    pub treasury: Option<Address>,
    pub lp_address: Option<Address>,
    pub burn_address: Option<Address>,
    pub vault_balance: i128,
}

/// A market as its creator and its judges describe it.
pub struct Market {
    pub id: u64,
    pub question: String,
    pub options: Vec<String>,
    pub deadline: u64,
    pub status: MarketStatus,
    pub winning_outcome: u32,
    pub token: Address,
    pub proposed_outcome: Option<u32>,
    pub proposal_timestamp: u64,
    /// If set, this market only resolves if the referenced market resolved to `condition_outcome`.
    /// Otherwise the market is Voided and all stakes are refunded.
    pub condition_market_id: Option<u64>,
    pub condition_outcome: Option<u32>,
}

/// The view of a [`Market`].
#[verifier::ext_equal]
pub struct MarketView {
    pub id: u64,
    pub question: Seq<char>,
    pub options: Seq<Seq<char>>,
    pub deadline: u64,
    pub status: MarketStatus,
    pub winning_outcome: u32,
    pub token: Address,
    pub proposed_outcome: Option<u32>,
    pub proposal_timestamp: u64,
    pub condition_market_id: Option<u64>,
    pub condition_outcome: Option<u32>,
}

/// The texts of a list of options.
pub open spec fn texts(options: Seq<String>) -> Seq<Seq<char>> {
    options.map_values(|s: String| s@)
}

impl View for Market {
    type V = MarketView;

    open spec fn view(&self) -> MarketView {
        MarketView {
            id: self.id,
            question: self.question@,
            options: texts(self.options@),
            deadline: self.deadline,
            status: self.status,
            winning_outcome: self.winning_outcome,
            token: self.token,
            proposed_outcome: self.proposed_outcome,
            proposal_timestamp: self.proposal_timestamp,
            condition_market_id: self.condition_market_id,
            condition_outcome: self.condition_outcome,
        }
    }
}

/// A vote on whether a resolution should be reviewed.
pub struct DisputeData {
    pub active: bool,
    pub votes: Balances,
    pub total_votes: i128,
    pub support_votes: i128,
    pub deadline: u64,
}

/// The view of a [`DisputeData`].
#[verifier::ext_equal]
pub struct DisputeView {
    pub active: bool,
    pub votes: Map<Address, i128>,
    pub total_votes: i128,
    pub support_votes: i128,
    pub deadline: u64,
}

impl View for DisputeData {
    type V = DisputeView;

    open spec fn view(&self) -> DisputeView {
        DisputeView {
            active: self.active,
            votes: self.votes@,
            total_votes: self.total_votes,
            support_votes: self.support_votes,
            deadline: self.deadline,
        }
    }
}

impl DisputeView {
    /// The tallies are those of the votes cast, each of positive weight.
    pub open spec fn wf(self) -> bool {
        &&& self.votes.dom().finite()
        &&& forall|a: Address| #[trigger] self.votes.contains_key(a) ==> self.votes[a] > 0
        &&& self.total_votes == total(self.votes)
        &&& 0 <= self.support_votes <= self.total_votes
    }
}

/// Everything the contract remembers of one market.
pub struct MarketRecord {
    pub market: Market,
    /// What has been paid in for bets and as liquidity.
    pub total_shares: i128,
    pub lmsr_b: i128,
    /// Shares outstanding per outcome.
    pub outcome_shares: Shares,
    /// Stake per outcome, as observers look it up.
    pub pool_balances: PoolBalances,
    /// Shares held per address, for each outcome.
    pub positions: Vec<Balances>,
    pub lp: Option<Balances>,
    pub lp_fee_pool: Option<i128>,
    pub dispute: Option<DisputeData>,
    /// Time of resolution, from which claims are counted.
    pub claim_deadline: Option<u64>,
    pub original_payouts: Balances,
    pub claimed: Flags,
    pub swept: bool,
    /// Number of winners that have been paid.
    pub winners_paid: u32,
    pub settlement_fee_paid: bool,
    /// What each address has paid in.
    pub user_cost: Balances,
    pub refund_claimed: Flags,
    pub payout_claimed: Flags,
    pub proposed_outcome_id: Option<u32>,
    pub unlock_timestamp: Option<u64>,
}

/// The view of a [`MarketRecord`].
#[verifier::ext_equal]
pub struct MarketState {
    pub market: MarketView,
    pub total_shares: i128,
    pub lmsr_b: i128,
    pub outcome_shares: Seq<i128>,
    pub pool_balances: Map<u32, i128>,
    pub positions: Seq<Map<Address, i128>>,
    pub lp: Option<Map<Address, i128>>,
    pub lp_fee_pool: Option<i128>,
    pub dispute: Option<DisputeView>,
    pub claim_deadline: Option<u64>,
    pub original_payouts: Map<Address, i128>,
    pub claimed: Map<Address, bool>,
    pub swept: bool,
    pub winners_paid: u32,
    pub settlement_fee_paid: bool,
    pub user_cost: Map<Address, i128>,
    pub refund_claimed: Map<Address, bool>,
    pub payout_claimed: Map<Address, bool>,
    pub proposed_outcome_id: Option<u32>,
    pub unlock_timestamp: Option<u64>,
}

/// The views of a list of holdings.
pub open spec fn holdings(positions: Seq<Balances>) -> Seq<Map<Address, i128>> {
    positions.map_values(|b: Balances| b@)
}

impl View for MarketRecord {
    type V = MarketState;

    open spec fn view(&self) -> MarketState {
        MarketState {
            market: self.market@,
            total_shares: self.total_shares,
            lmsr_b: self.lmsr_b,
            outcome_shares: self.outcome_shares@,
            pool_balances: self.pool_balances@,
            positions: holdings(self.positions@),
            lp: match self.lp {
                Some(b) => Some(b@),
                None => None,
            },
            lp_fee_pool: self.lp_fee_pool,
            dispute: match self.dispute {
                Some(d) => Some(d@),
                None => None,
            },
            claim_deadline: self.claim_deadline,
            original_payouts: self.original_payouts@,
            claimed: self.claimed@,
            swept: self.swept,
            winners_paid: self.winners_paid,
            settlement_fee_paid: self.settlement_fee_paid,
            user_cost: self.user_cost@,
            refund_claimed: self.refund_claimed@,
            payout_claimed: self.payout_claimed@,
            proposed_outcome_id: self.proposed_outcome_id,
            unlock_timestamp: self.unlock_timestamp,
        }
    }
}

/// Positive holdings that do not exceed the shares outstanding.
pub open spec fn backed(position: Map<Address, i128>, shares: i128) -> bool {
    &&& position.dom().finite()
    &&& forall|a: Address| #[trigger] position.contains_key(a) ==> position[a] > 0
    &&& total(position) <= shares
}

/// The stake on record of every outcome is the shares outstanding of it.
pub open spec fn staked(pools: Map<u32, i128>, shares: Seq<i128>) -> bool {
    forall|i: u32|
        i < shares.len() ==> #[trigger] pools.contains_key(i) && pools[i] == shares[i as int]
}

/// Contributions of liquidity, none negative.
pub open spec fn contributions(lp: Map<Address, i128>) -> bool {
    &&& lp.dom().finite()
    &&& forall|a: Address| #[trigger] lp.contains_key(a) ==> lp[a] >= 0
}

impl MarketState {
    /// Number of possible outcomes.
    pub open spec fn outcomes(self) -> nat {
        self.market.options.len()
    }

    /// What holds of every market at all times.
    pub open spec fn wf(self) -> bool {
        &&& 2 <= self.outcomes() <= MAX_OUTCOMES
        &&& self.outcome_shares.len() == self.outcomes()
        &&& self.positions.len() == self.outcomes()
        &&& self.lmsr_b > 0
        &&& self.market.winning_outcome < self.outcomes()
        &&& self.proposed_outcome_id matches Some(p) ==> p < self.outcomes()
        &&& forall|i: int|
            0 <= i < self.outcomes() ==> backed(
                #[trigger] self.positions[i],
                #[trigger] self.outcome_shares[i],
            )
        &&& forall|i: int| 0 <= i < self.outcomes() ==> #[trigger] self.outcome_shares[i] >= 0
        &&& staked(self.pool_balances, self.outcome_shares)
        &&& self.lp matches Some(lp) ==> contributions(lp)
        &&& self.dispute matches Some(d) ==> d.wf()
    }

    /// This market with another status.
    pub open spec fn with_status(self, status: MarketStatus) -> MarketState {
        MarketState { market: MarketView { status, ..self.market }, ..self }
    }

    /// This market with other holdings of one outcome.
    pub open spec fn with_position(
        self,
        outcome: u32,
        position: Map<Address, i128>,
    ) -> MarketState {
        MarketState { positions: self.positions.update(outcome as int, position), ..self }
    }

    /// Shares that an address holds of an outcome; zero where there is no such
    /// outcome.
    pub open spec fn position(self, outcome: u32, address: Address) -> i128 {
        if outcome < self.positions.len() {
            amount_of(self.positions[outcome as int], address)
        } else {
            0
        }
    }
}

/// The markets by number.
pub struct Markets {
    map: BTreeMap<u64, MarketRecord>,
}

impl View for Markets {
    type V = Map<u64, MarketState>;

    closed spec fn view(&self) -> Map<u64, MarketState> {
        self.map@.map_values(|r: MarketRecord| r@)
    }
}

impl Markets {
    /// No markets.
    pub fn new() -> (res: Markets)
        ensures
            res@ == Map::<u64, MarketState>::empty(),
    {
        let res = Markets { map: BTreeMap::new() };
        assert(res@ =~= Map::<u64, MarketState>::empty());
        res
    }

    /// The market of a number, where there is one.
    pub fn get(&self, id: u64) -> (res: Option<&MarketRecord>)
        ensures
            match res {
                Some(r) => self@.contains_key(id) && r@ == self@[id],
                None => !self@.contains_key(id),
            },
    {
        broadcast use vstd::std_specs::btree::group_btree_axioms;

        self.map.get(&id)
    }

    /// Take out a market that is there.
    pub fn take(&mut self, id: u64) -> (res: MarketRecord)
        requires
            old(self)@.contains_key(id),
        ensures
            final(self)@ == old(self)@.remove(id),
            res@ == old(self)@[id],
    {
        broadcast use vstd::std_specs::btree::group_btree_axioms;

        let res = self.map.remove(&id).unwrap();
        assert(self@ =~= old(self)@.remove(id));
        res
    }

    /// Put a market in.
    pub fn put(&mut self, id: u64, record: MarketRecord)
        ensures
            final(self)@ == old(self)@.insert(id, record@),
    {
        broadcast use vstd::std_specs::btree::group_btree_axioms;

        self.map.insert(id, record);
        assert(self@ =~= old(self)@.insert(id, record@));
    }
}

/// The pause flags by number of market.
pub struct PauseFlags {
    map: BTreeMap<u64, bool>,
}

impl View for PauseFlags {
    type V = Map<u64, bool>;

    closed spec fn view(&self) -> Map<u64, bool> {
        self.map@
    }
}

impl PauseFlags {
    /// Nothing is paused.
    pub fn new() -> (res: PauseFlags)
        ensures
            res@ == Map::<u64, bool>::empty(),
    {
        PauseFlags { map: BTreeMap::new() }
    }

    /// Whether a market is paused; it is not where it has no flag.
    pub fn get(&self, id: u64) -> (res: bool)
        ensures
            res == (self@.contains_key(id) && self@[id]),
    {
        broadcast use vstd::std_specs::btree::group_btree_axioms;

        match self.map.get(&id) {
            Some(paused) => *paused,
            None => false,
        }
    }

    /// Set the flag of a market.
    pub fn set(&mut self, id: u64, paused: bool)
        ensures
            final(self)@ == old(self)@.insert(id, paused),
    {
        broadcast use vstd::std_specs::btree::group_btree_axioms;

        self.map.insert(id, paused);
    }
}

/// The contract with the ledger entries that a call touches.
pub struct PredictionMarket {
    pub config: Config,
    /// Tokens in which bets are taken.
    pub whitelist: Flags,
    /// The next nonce of each bettor who signs off-chain.
    pub nonces: Counters,
    pub paused: PauseFlags,
    pub markets: Markets,
}

/// The view of a [`PredictionMarket`].
#[verifier::ext_equal]
pub struct ContractState {
    pub config: Config,
    pub whitelist: Map<Address, bool>,
    pub nonces: Map<Address, u64>,
    pub paused: Map<u64, bool>,
    pub markets: Map<u64, MarketState>,
}

impl View for PredictionMarket {
    type V = ContractState;

    open spec fn view(&self) -> ContractState {
        ContractState {
            config: self.config,
            whitelist: self.whitelist@,
            nonces: self.nonces@,
            paused: self.paused@,
            markets: self.markets@,
        }
    }
}

impl Config {
    /// What holds of the settings at all times.
    pub open spec fn wf(self) -> bool {
        &&& self.creation_fee >= 0
        &&& 1 <= self.min_bet <= self.max_bet
        &&& self.fee_split.is_whole()
    }
}

impl ContractState {
    /// The settings are sound, and every market is sound and filed under its
    /// own number.
    pub open spec fn wf(self) -> bool {
        &&& self.config.wf()
        &&& forall|id: u64| #[trigger]
            self.markets.contains_key(id) ==> self.markets[id].wf() && self.markets[id].market.id
                == id
    }

    /// This state with one market replaced or added.
    pub open spec fn with_market(self, id: u64, market: MarketState) -> ContractState {
        ContractState { markets: self.markets.insert(id, market), ..self }
    }

    /// Whether a market is paused.
    pub open spec fn is_paused(self, id: u64) -> bool {
        self.paused.contains_key(id) && self.paused[id]
    }

    /// This state with other settings.
    pub open spec fn with_config(self, config: Config) -> ContractState {
        ContractState { config, ..self }
    }

    /// This state with another balance in the vault.
    pub open spec fn with_vault(self, vault_balance: i128) -> ContractState {
        self.with_config(Config { vault_balance, ..self.config })
    }

    /// The address that a role is assigned to.
    pub open spec fn holder(self, role: Role) -> Option<Address> {
        match role {
            Role::SuperAdmin => self.config.super_admin,
            Role::FeeSetter => self.config.fee_setter,
            Role::Pauser => self.config.pauser,
            Role::Resolver => self.config.resolver,
            Role::Oracle => self.config.oracle,
        }
    }

    /// Whether an address may act in a role: it holds the role, or it is the
    /// administrator and the role is one whose duties the administrator shares.
    pub open spec fn may_act(self, caller: Address, role: Role) -> bool {
        ||| self.holder(role) == Some(caller)
        ||| (role is FeeSetter || role is Resolver) && self.config.super_admin == Some(caller)
    }
}

impl PredictionMarket {
    /// A contract that nobody has set up yet.
    pub fn new(env: &soroban_sdk::Env) -> (res: PredictionMarket)
        ensures
            res@ == (ContractState {
                config: initial_config(),
                whitelist: Map::empty(),
                nonces: Map::empty(),
                paused: Map::empty(),
                markets: Map::empty(),
            }),
            res@.wf(),
    {
        PredictionMarket {
            config: Config {
                initialized: false,
                locked: false,
                status: AccessPlatformStatus::Active,
                legacy_admin: None,
                super_admin: None,
                fee_setter: None,
                pauser: None,
                resolver: None,
                oracle: None,
                creation_fee: 0,
                fee_destination: None,
                fee_mode: FeeMode::Treasury,
                min_bet: 1,
                max_bet: i128::MAX,
                fee_split: FeeConfig { treasury_bps: 10000, lp_bps: 0, burn_bps: 0 },
                treasury: None,
                lp_address: None,
                burn_address: None,
                vault_balance: 0,
            },
            whitelist: Flags::new(env),
            nonces: Counters::new(env),
            paused: PauseFlags::new(),
            markets: Markets::new(),
        }
    }

    /// Take a market out to change it.
    pub(crate) fn take_market(&mut self, id: u64) -> (res: MarketRecord)
        requires
            old(self)@.markets.contains_key(id),
        ensures
            res@ == old(self)@.markets[id],
            forall|m: MarketState|
                (#[trigger] final(self)@.with_market(id, m)) == old(self)@.with_market(id, m),
    {
        let res = self.markets.take(id);
        assert forall|m: MarketState|
            (#[trigger] self@.with_market(id, m)) == old(self)@.with_market(id, m) by {
            assert(self@.with_market(id, m).markets =~= old(self)@.with_market(id, m).markets);
        }
        res
    }

    /// Put a market back, or a new one in.
    pub(crate) fn put_market(&mut self, id: u64, record: MarketRecord)
        ensures
            final(self)@ == old(self)@.with_market(id, record@),
    {
        self.markets.put(id, record);
    }
}

impl MarketRecord {
    /// Shares that an address holds of an outcome; zero where there is no such
    /// outcome.
    pub fn position(&self, outcome: u32, address: Address) -> (res: i128)
        ensures
            res == self@.position(outcome, address),
    {
        if (outcome as usize) < self.positions.len() {
            self.positions[outcome as usize].get(address)
        } else {
            0
        }
    }

    /// Record the shares that an address holds of an outcome.
    pub(crate) fn set_position(&mut self, outcome: u32, address: Address, value: i128)
        requires
            outcome < old(self)@.positions.len(),
        ensures
            final(self)@ == old(self)@.with_position(
                outcome,
                old(self)@.positions[outcome as int].insert(address, value),
            ),
    {
        let i: usize = outcome as usize;
        let ghost before = self.positions@;
        self.positions[i].set(address, value);
        assert(holdings(self.positions@) =~= holdings(before).update(
            outcome as int,
            holdings(before)[outcome as int].insert(address, value),
        ));
    }

    /// Forget the shares that an address holds of an outcome.
    pub(crate) fn remove_position(&mut self, outcome: u32, address: Address)
        requires
            outcome < old(self)@.positions.len(),
        ensures
            final(self)@ == old(self)@.with_position(
                outcome,
                old(self)@.positions[outcome as int].remove(address),
            ),
    {
        let i: usize = outcome as usize;
        let ghost before = self.positions@;
        self.positions[i].remove(address);
        assert(holdings(self.positions@) =~= holdings(before).update(
            outcome as int,
            holdings(before)[outcome as int].remove(address),
        ));
    }
}

/// Settings before anything has been configured: no fees, no limits, no roles.
pub open spec fn initial_config() -> Config {
    Config {
        initialized: false,
        locked: false,
        status: AccessPlatformStatus::Active,
        legacy_admin: None,
        super_admin: None,
        fee_setter: None,
        pauser: None,
        resolver: None,
        oracle: None,
        creation_fee: 0,
        fee_destination: None,
        fee_mode: FeeMode::Treasury,
        min_bet: 1,
        max_bet: i128::MAX,
        fee_split: FeeConfig { treasury_bps: 10000, lp_bps: 0, burn_bps: 0 },
        treasury: None,
        lp_address: None,
        burn_address: None,
        vault_balance: 0,
    }
}

} // verus!
