use std::collections::BTreeMap;

use prediction_market::holdings::{Counters, Flags};
use prediction_market::math::Scalar;
use prediction_market::{
    Address, Config, DataKey, Effects, Entry, Error, Event, FeeConfig, FeeMode, Market,
    MarketStatus, Party, PauseFlags, PredictionMarket, Role, Transfer, LIVENESS_WINDOW,
    MAX_BATCH_SIZE,
};

/// A ledger with one prediction market contract on it. Every caller is
/// authorised: a role is given to whoever needs it just before the call.
struct Chain {
    env: soroban_sdk::Env,
    now: u64,
    contract: PredictionMarket,
    balances: BTreeMap<(u128, u128), i128>,
    events: Vec<Event>,
    last: u128,
}

const B: i128 = 100_000_000;

fn ok<T>(res: Result<T, Error>) -> T {
    match res {
        Ok(value) => value,
        Err(e) => panic!("{}", e.message()),
    }
}

fn options() -> Vec<String> {
    vec!["Yes".to_string(), "No".to_string()]
}

impl Chain {
    fn new() -> Chain {
        let env = soroban_sdk::Env::default();
        let contract = PredictionMarket::new(&env);
        Chain { env, now: 0, contract, balances: BTreeMap::new(), events: Vec::new(), last: 1000 }
    }

    fn generate(&mut self) -> Address {
        self.last += 1;
        Address { kind: 0, hi: 7, lo: self.last }
    }

    fn holder(party: Party) -> u128 {
        match party {
            Party::Contract => 0,
            Party::Account(a) => a.lo,
        }
    }

    fn balance(&self, token: Address, who: Address) -> i128 {
        *self.balances.get(&(token.lo, who.lo)).unwrap_or(&0)
    }

    fn mint(&mut self, token: Address, to: Address, amount: i128) {
        *self.balances.entry((token.lo, to.lo)).or_insert(0) += amount;
    }

    fn transfer(&mut self, token: Address, from: Party, to: Party, amount: i128) -> bool {
        let (from, to) = (Chain::holder(from), Chain::holder(to));
        let held = *self.balances.get(&(token.lo, from)).unwrap_or(&0);
        if amount < 0 || held < amount {
            return false;
        }
        *self.balances.entry((token.lo, from)).or_insert(0) -= amount;
        *self.balances.entry((token.lo, to)).or_insert(0) += amount;
        true
    }

    fn perform(&mut self, effects: Effects) {
        for t in effects.transfers {
            assert!(self.transfer(t.token, t.from, t.to, t.amount), "transfer failed");
        }
        self.events.extend(effects.events);
    }

    fn grant(&mut self, role: Role, caller: Address) {
        match role {
            Role::SuperAdmin => self.contract.config.super_admin = Some(caller),
            Role::FeeSetter => self.contract.config.fee_setter = Some(caller),
            Role::Pauser => self.contract.config.pauser = Some(caller),
            Role::Resolver => self.contract.config.resolver = Some(caller),
            Role::Oracle => self.contract.config.oracle = Some(caller),
        }
    }

    fn initialize(&mut self, admin: Address) {
        let effects = ok(self.contract.initialize(admin));
        self.perform(effects);
    }

    fn try_create_market(
        &mut self,
        creator: Address,
        id: u64,
        options: Vec<String>,
        deadline: u64,
        token: Address,
        b: i128,
        condition: Option<(u64, u32)>,
    ) -> Result<(), Error> {
        self.grant(Role::Pauser, creator);
        let charge =
            self.contract.creation_charge(self.now, creator, id, &options, deadline, token, b)?;
        let charged = match charge {
            Some(t) => self.transfer(t.token, t.from, t.to, t.amount),
            None => true,
        };
        let effects = self.contract.create_market(
            &self.env,
            self.now,
            creator,
            id,
            "Test market".to_string(),
            options,
            deadline,
            token,
            b,
            condition.map(|c| c.0),
            condition.map(|c| c.1),
            charged,
        )?;
        self.perform(effects);
        Ok(())
    }

    fn create_market(&mut self, creator: Address, id: u64, deadline: u64, token: Address) {
        ok(self.try_create_market(creator, id, options(), deadline, token, B, None));
    }

    fn market(&self, id: u64) -> &Market {
        ok(self.contract.get_market(id))
    }

    fn place_bet(&mut self, id: u64, option: u32, bettor: Address, amount: i128) {
        let effects = ok(self.contract.place_bet(self.now, id, option, bettor, amount));
        self.perform(effects);
    }

    fn propose_resolution(&mut self, resolver: Address, id: u64, outcome: u32) {
        self.grant(Role::Resolver, resolver);
        ok(self.contract.propose_resolution(self.now, resolver, id, outcome));
    }

    fn resolve_market(&mut self, resolver: Address, id: u64, outcome: u32) {
        self.grant(Role::Resolver, resolver);
        let effects = ok(self.contract.resolve_market(self.now, resolver, id, outcome));
        self.perform(effects);
    }

    fn propose_outcome(&mut self, oracle: Address, id: u64, outcome: u32) {
        ok(self.contract.propose_outcome(self.now, oracle, id, outcome));
    }

    fn settle(&mut self, id: u64) {
        let effects = ok(self.contract.settle(self.now, id));
        self.perform(effects);
    }

    fn dispute(&mut self, id: u64, disputer: Address, bond: i128) {
        let effects = ok(self.contract.dispute(id, disputer, bond));
        self.perform(effects);
    }

    fn batch_distribute(&mut self, id: u64, batch_size: u32) -> u32 {
        let (paid, effects) = ok(self.contract.batch_distribute(self.now, id, batch_size));
        self.perform(effects);
        paid
    }

    fn exit_position(&mut self, id: u64, option: u32, bettor: Address, amount: i128) -> i128 {
        let (paid, effects) = ok(self.contract.exit_position(id, option, bettor, amount));
        self.perform(effects);
        paid
    }

    fn claim_refund(&mut self, id: u64, bettor: Address) -> i128 {
        let (paid, effects) = ok(self.contract.claim_refund(id, bettor));
        self.perform(effects);
        paid
    }
}

/// A market with number 1 in an allowed token, and an account with all roles.
fn setup() -> (Chain, Address, Address, Address, u64) {
    let mut chain = Chain::new();
    let admin = chain.generate();
    chain.initialize(admin);
    let fee_dest = chain.generate();
    ok(chain.contract.update_fee(admin, 0, fee_dest, FeeMode::Treasury));
    let token = chain.generate();
    ok(chain.contract.set_token_whitelist(admin, token, true));
    ok(chain.contract.update_bet_limits(admin, 1, 0));
    let creator = chain.generate();
    let deadline = chain.now + 86400;
    chain.create_market(creator, 1, deadline, token);
    ok(chain.contract.assign_role(admin, Role::Resolver, creator));
    ok(chain.contract.assign_role(admin, Role::FeeSetter, creator));
    ok(chain.contract.assign_role(admin, Role::Pauser, creator));
    ok(chain.contract.assign_role(admin, Role::Oracle, creator));
    ok(chain.contract.configure_fee_split(admin, 10000, 0, 0, fee_dest, fee_dest, fee_dest));
    (chain, admin, creator, token, deadline)
}

/// A resolved market with `n` winners and a loser, each holding a tenth of a
/// token in shares.
fn setup_market_with_winners(n: u32) -> (Chain, Vec<Address>, Address) {
    let mut chain = Chain::new();
    let admin = chain.generate();
    chain.initialize(admin);
    let fee_dest = chain.generate();
    ok(chain.contract.update_fee(admin, 0, fee_dest, FeeMode::Treasury));
    let loser = chain.generate();
    let token = chain.generate();
    ok(chain.contract.set_token_whitelist(admin, token, true));
    ok(chain.contract.update_bet_limits(admin, 1, 0));
    ok(chain.contract.configure_fee_split(admin, 10000, 0, 0, fee_dest, fee_dest, fee_dest));
    let mut bettors = Vec::new();
    for _ in 0..n {
        bettors.push(chain.generate());
    }
    for b in bettors.iter() {
        chain.mint(token, *b, 100_000_000);
    }
    chain.mint(token, loser, 100_000_000);
    let creator = chain.generate();
    let deadline = chain.now + 86400;
    chain.create_market(creator, 1, deadline, token);
    for b in bettors.clone() {
        chain.place_bet(1, 0, b, 1_000_000);
    }
    chain.place_bet(1, 1, loser, 1_000_000);
    chain.propose_resolution(creator, 1, 0);
    chain.now += LIVENESS_WINDOW + 1;
    chain.resolve_market(creator, 1, 0);
    (chain, bettors, token)
}

fn setup_market_with_token() -> (Chain, Address, Address) {
    let mut chain = Chain::new();
    let admin = chain.generate();
    chain.initialize(admin);
    let fee_dest = chain.generate();
    ok(chain.contract.update_fee(admin, 0, fee_dest, FeeMode::Treasury));
    let token = chain.generate();
    let creator = chain.generate();
    let deadline = chain.now + 86400;
    chain.create_market(creator, 1, deadline, token);
    ok(chain.contract.set_token_whitelist(admin, token, true));
    ok(chain.contract.update_bet_limits(admin, 1, 0));
    ok(chain.contract.configure_fee_split(admin, 10000, 0, 0, fee_dest, fee_dest, fee_dest));
    (chain, token, fee_dest)
}

// Initialization

#[test]
fn test_initialize_and_create_market() {
    let (chain, _, _, _, deadline) = setup();
    let market = chain.market(1);
    assert_eq!(market.id, 1);
    assert_eq!(market.options.len(), 2);
    assert_eq!(market.deadline, deadline);
    assert_eq!(market.status, MarketStatus::Active);
}

#[test]
#[should_panic(expected = "Contract already initialized")]
fn test_double_initialize_panics() {
    let mut chain = Chain::new();
    let admin = chain.generate();
    chain.initialize(admin);
    chain.initialize(admin);
}

// Total shares

#[test]
fn test_total_shares_in_instance_storage() {
    let (chain, _, _, _, _) = setup();
    assert_eq!(chain.contract.get_total_shares(1), 0);
}

#[test]
fn test_total_shares_consistent_after_multiple_bets() {
    let mut chain = Chain::new();
    let admin = chain.generate();
    chain.initialize(admin);
    let token = chain.generate();
    ok(chain.contract.set_token_whitelist(admin, token, true));
    ok(chain.contract.update_bet_limits(admin, 1, 0));
    let creator = chain.generate();
    let deadline = chain.now + 86400;
    chain.create_market(creator, 2, deadline, token);
    let bettor1 = chain.generate();
    let bettor2 = chain.generate();
    chain.mint(token, bettor1, 100_000_000);
    chain.mint(token, bettor2, 100_000_000);
    chain.place_bet(2, 0, bettor1, 100_000);
    chain.place_bet(2, 1, bettor2, 200_000);
    assert!(chain.contract.get_total_shares(2) > 0);
}

// Pausing

#[test]
fn test_is_paused_defaults_false() {
    let (chain, _, _, _, _) = setup();
    assert!(!chain.contract.get_is_paused(1));
}

#[test]
fn test_set_paused_updates_instance_storage() {
    let (mut chain, _, creator, _, _) = setup();
    ok(chain.contract.set_paused(creator, 1, true));
    assert!(chain.contract.get_is_paused(1));
    ok(chain.contract.set_paused(creator, 1, false));
    assert!(!chain.contract.get_is_paused(1));
}

#[test]
#[should_panic(expected = "Market is paused")]
fn test_place_bet_blocked_when_paused() {
    let (mut chain, _, creator, _, _) = setup();
    ok(chain.contract.set_paused(creator, 1, true));
    let bettor = chain.generate();
    chain.place_bet(1, 0, bettor, 50);
}

// Market metadata

#[test]
fn test_market_metadata_in_persistent_storage() {
    let (chain, _, _, _, deadline) = setup();
    let market = chain.market(1);
    assert_eq!(market.deadline, deadline);
    assert_eq!(market.status, MarketStatus::Active);
}

#[test]
#[should_panic(expected = "Market already exists")]
fn test_duplicate_market_panics() {
    let (mut chain, _, _, token, deadline) = setup();
    let creator = chain.generate();
    chain.create_market(creator, 1, deadline, token);
}

#[test]
#[should_panic(expected = "Deadline must be in the future")]
fn test_past_deadline_panics() {
    let mut chain = Chain::new();
    let admin = chain.generate();
    let token = chain.generate();
    chain.initialize(admin);
    let creator = chain.generate();
    chain.create_market(creator, 3, 0, token);
}

#[test]
#[should_panic(expected = "Need at least 2 options")]
fn test_single_option_panics() {
    let mut chain = Chain::new();
    let admin = chain.generate();
    let token = chain.generate();
    chain.initialize(admin);
    let creator = chain.generate();
    let deadline = chain.now + 100;
    let only = vec!["Only".to_string()];
    ok(chain.try_create_market(creator, 4, only, deadline, token, B, None));
}

// Resolve and distribute

#[test]
fn test_resolve_market_flow() {
    let (mut chain, _, creator, _, _) = setup();
    ok(chain.contract.lock_market(creator, 1));
    chain.propose_outcome(creator, 1, 0);
    chain.now += LIVENESS_WINDOW + 1;
    chain.settle(1);
    assert_eq!(chain.market(1).status, MarketStatus::Resolved);
    assert_eq!(chain.market(1).winning_outcome, 0);
}

#[test]
#[should_panic(expected = "Market must be proposed or disputed to resolve")]
fn test_double_resolve_panics() {
    let (mut chain, _, creator, _, _) = setup();
    chain.propose_resolution(creator, 1, 0);
    chain.now += LIVENESS_WINDOW + 1;
    chain.resolve_market(creator, 1, 0);
    chain.resolve_market(creator, 1, 0);
}

#[test]
#[should_panic(expected = "Invalid outcome index")]
fn test_invalid_outcome_panics() {
    let (mut chain, _, creator, _, _) = setup();
    chain.propose_resolution(creator, 1, 0);
    chain.now += LIVENESS_WINDOW + 1;
    chain.resolve_market(creator, 1, 99);
}

#[test]
#[should_panic(expected = "Market not resolved yet")]
fn test_distribute_before_resolve_panics() {
    let (mut chain, _, _, _, _) = setup();
    ok(chain.contract.distribute_rewards(chain.now, 1));
}

#[test]
fn test_distribute_no_winners_is_noop() {
    let (mut chain, _, creator, _, _) = setup();
    chain.propose_resolution(creator, 1, 0);
    chain.now += LIVENESS_WINDOW + 1;
    chain.resolve_market(creator, 1, 0);
    let (_, effects) = ok(chain.contract.distribute_rewards(chain.now, 1));
    assert!(effects.transfers.is_empty());
}

// Amount validation

#[test]
#[should_panic(expected = "Amount must be positive")]
fn test_zero_amount_panics() {
    let (mut chain, _, _, _, _) = setup();
    let bettor = chain.generate();
    chain.place_bet(1, 0, bettor, 0);
}

#[test]
#[should_panic(expected = "Amount must be positive")]
fn test_negative_amount_panics() {
    let (mut chain, _, _, _, _) = setup();
    let bettor = chain.generate();
    chain.place_bet(1, 0, bettor, -10);
}

// Deadline enforcement

#[test]
#[should_panic(expected = "Market deadline has passed")]
fn test_bet_after_deadline_panics() {
    let mut chain = Chain::new();
    let admin = chain.generate();
    let token = chain.generate();
    chain.initialize(admin);
    let creator = chain.generate();
    let deadline = chain.now + 1;
    chain.create_market(creator, 5, deadline, token);
    chain.now += 10;
    let bettor = chain.generate();
    chain.place_bet(5, 0, bettor, 50);
}

#[test]
#[should_panic(expected = "Invalid option index")]
fn test_invalid_option_index_panics() {
    let (mut chain, _, _, _, _) = setup();
    let bettor = chain.generate();
    chain.place_bet(1, 99, bettor, 50);
}

#[test]
#[should_panic(expected = "Market not active")]
fn test_bet_on_proposed_market_panics() {
    let (mut chain, _, creator, token, _) = setup();
    ok(chain.contract.lock_market(creator, 1));
    chain.propose_outcome(creator, 1, 0);
    let disputer = chain.generate();
    chain.mint(token, disputer, 1000);
    chain.dispute(1, disputer, 100);
    assert_eq!(chain.market(1).status, MarketStatus::Disputed);
    let bettor = chain.generate();
    chain.mint(token, bettor, 100_000_000);
    chain.place_bet(1, 0, bettor, 50);
}

// Batch distribute

#[test]
fn test_batch_distribute_pays_all_winners_in_one_call() {
    let (mut chain, _, _) = setup_market_with_winners(3);
    assert_eq!(chain.batch_distribute(1, 3), 3);
    assert_eq!(chain.batch_distribute(1, 3), 0);
}

#[test]
fn test_batch_distribute_cursor_advances_across_batches() {
    let (mut chain, _, _) = setup_market_with_winners(10);
    assert_eq!(chain.batch_distribute(1, 5), 5);
    assert_eq!(chain.batch_distribute(1, 5), 5);
    assert_eq!(chain.batch_distribute(1, 5), 0);
}

#[test]
fn test_batch_distribute_partial_last_batch() {
    let (mut chain, _, _) = setup_market_with_winners(7);
    assert_eq!(chain.batch_distribute(1, 5), 5);
    assert_eq!(chain.batch_distribute(1, 5), 2);
}

#[test]
fn test_distribute_rewards_uses_max_batch_size() {
    let (mut chain, _, _) = setup_market_with_winners(3);
    let (paid, effects) = ok(chain.contract.distribute_rewards(chain.now, 1));
    chain.perform(effects);
    assert_eq!(paid, 3);
}

#[test]
#[should_panic(expected = "batch_size must be 1..=MAX_BATCH_SIZE")]
fn test_batch_size_zero_panics() {
    let (mut chain, _, _) = setup_market_with_winners(3);
    chain.batch_distribute(1, 0);
}

#[test]
#[should_panic(expected = "batch_size must be 1..=MAX_BATCH_SIZE")]
fn test_batch_size_exceeds_max_panics() {
    let (mut chain, _, _) = setup_market_with_winners(3);
    chain.batch_distribute(1, MAX_BATCH_SIZE + 1);
}

#[test]
#[should_panic(expected = "Market not resolved yet")]
fn test_batch_distribute_unresolved_panics() {
    let mut chain = Chain::new();
    let admin = chain.generate();
    let token = chain.generate();
    chain.initialize(admin);
    let creator = chain.generate();
    let deadline = chain.now + 100;
    chain.create_market(creator, 1, deadline, token);
    chain.batch_distribute(1, 1);
}

#[test]
fn test_batch_distribute_no_winners_is_noop() {
    let (mut chain, _, creator, _, _) = setup();
    chain.propose_resolution(creator, 1, 0);
    chain.now += LIVENESS_WINDOW + 1;
    chain.resolve_market(creator, 1, 0);
    assert_eq!(chain.batch_distribute(1, 5), 0);
}

// Graceful shutdown

#[test]
fn test_global_status_defaults_active() {
    let (chain, _, _, _, _) = setup();
    assert!(chain.contract.get_global_status());
}

#[test]
#[should_panic(expected = "Platform is shut down")]
fn test_create_market_blocked_when_shutdown() {
    let (mut chain, admin, _, token, _) = setup();
    ok(chain.contract.set_global_status(admin, false));
    let creator = chain.generate();
    let deadline = chain.now + 100;
    chain.create_market(creator, 2, deadline, token);
}

#[test]
#[should_panic(expected = "Platform is shut down")]
fn test_place_bet_blocked_when_shutdown() {
    let (mut chain, admin, _, _, _) = setup();
    ok(chain.contract.set_global_status(admin, false));
    let bettor = chain.generate();
    chain.place_bet(1, 0, bettor, 50);
}

#[test]
fn test_place_bet_with_sig_replay_protection() {
    let (mut chain, _, _, token, _) = setup();
    let bettor = chain.generate();
    chain.mint(token, bettor, 1_000_000_000);
    let amount: i128 = 50_000_000;

    let effects = ok(chain.contract.place_bet_with_sig(chain.now, 1, 0, bettor, amount, 0));
    chain.perform(effects);
    assert!(chain.contract.get_total_shares(1) > 0);

    let res = chain.contract.place_bet_with_sig(chain.now, 1, 0, bettor, amount, 0);
    assert!(res.is_err(), "Replay with same nonce should fail");

    let effects = ok(chain.contract.place_bet_with_sig(chain.now, 1, 0, bettor, amount, 1));
    chain.perform(effects);
}

#[test]
fn test_batch_distribute_allowed_during_shutdown() {
    let (mut chain, _, _) = setup_market_with_winners(3);
    let admin = chain.contract.get_role(Role::SuperAdmin).unwrap();
    ok(chain.contract.set_global_status(admin, false));
    let paid = chain.batch_distribute(1, 3);
    assert_eq!(paid, 3);
}

#[test]
fn test_resolve_market_allowed_during_shutdown() {
    let (mut chain, admin, creator, _, _) = setup();
    ok(chain.contract.set_global_status(admin, false));
    chain.propose_resolution(creator, 1, 0);
    chain.now += LIVENESS_WINDOW + 1;
    chain.resolve_market(creator, 1, 0);
    assert_eq!(chain.market(1).status, MarketStatus::Resolved);
}

#[test]
fn test_reactivation_allows_create_market() {
    let (mut chain, admin, _, token, _) = setup();
    ok(chain.contract.set_global_status(admin, false));
    assert!(!chain.contract.get_global_status());
    ok(chain.contract.set_global_status(admin, true));
    assert!(chain.contract.get_global_status());
    let creator = chain.generate();
    let deadline = chain.now + 100;
    chain.create_market(creator, 2, deadline, token);
    assert_eq!(chain.market(2).id, 2);
}

// Dispute mechanism

#[test]
fn test_dispute_false_proposal() {
    let (mut chain, _, creator, token, _) = setup();
    let disputer = chain.generate();
    ok(chain.contract.lock_market(creator, 1));
    chain.propose_outcome(creator, 1, 0);
    assert_eq!(chain.market(1).status, MarketStatus::Proposed);
    chain.mint(token, disputer, 1000);
    chain.dispute(1, disputer, 100);
    assert_eq!(chain.market(1).status, MarketStatus::Disputed);
    assert_eq!(chain.balance(token, disputer), 900);
}

#[test]
#[should_panic(expected = "Market not resolved yet")]
fn test_payout_frozen_when_disputed() {
    let (mut chain, _, creator, token, _) = setup();
    chain.propose_resolution(creator, 1, 0);
    let disputer = chain.generate();
    chain.mint(token, disputer, 1000);
    chain.dispute(1, disputer, 100);
    chain.batch_distribute(1, 5);
}

#[test]
fn test_bump_market_ttl() {
    let (chain, _, _, _, _) = setup();
    assert_eq!(
        chain.contract.bump_market_ttl(1),
        Ok(vec![
            Entry::Data(DataKey::Market(1)),
            Entry::Data(DataKey::OutcomePoolBalances(1)),
            Entry::Position(1, 0),
            Entry::Position(1, 1),
        ])
    );
}

// Creation fee

#[test]
fn test_zero_fee_no_transfer() {
    let (mut chain, _, _, token, _) = setup();
    let creator = chain.generate();
    let deadline = chain.now + 100;
    chain.create_market(creator, 2, deadline, token);
    assert_eq!(chain.market(2).id, 2);
    let (fee, _, _) = chain.contract.get_fee_config();
    assert_eq!(fee, 0);
}

#[test]
fn test_fee_charged_on_create_market() {
    let mut chain = Chain::new();
    let admin = chain.generate();
    chain.initialize(admin);
    let fee_dest = chain.generate();
    let creator = chain.generate();
    let token = chain.generate();
    chain.mint(token, creator, 500);

    ok(chain.contract.update_fee(admin, 100, fee_dest, FeeMode::Treasury));
    let (fee, dest, mode) = chain.contract.get_fee_config();
    assert_eq!(fee, 100);
    assert_eq!(dest, Some(fee_dest));
    assert_eq!(mode, FeeMode::Treasury);

    let deadline = chain.now + 100;
    chain.create_market(creator, 1, deadline, token);
    assert_eq!(chain.balance(token, creator), 400);
    assert_eq!(chain.balance(token, fee_dest), 100);
}

#[test]
fn test_fee_burn_mode() {
    let mut chain = Chain::new();
    let admin = chain.generate();
    chain.initialize(admin);
    let burn_addr = chain.generate();
    let creator = chain.generate();
    let token = chain.generate();
    chain.mint(token, creator, 200);

    ok(chain.contract.update_fee(admin, 50, burn_addr, FeeMode::Burn));
    let (_, _, mode) = chain.contract.get_fee_config();
    assert_eq!(mode, FeeMode::Burn);

    let deadline = chain.now + 100;
    chain.create_market(creator, 1, deadline, token);
    assert_eq!(chain.balance(token, creator), 150);
    assert_eq!(chain.balance(token, burn_addr), 50);
}

#[test]
#[should_panic(expected = "InsufficientFeeBalance")]
fn test_insufficient_fee_balance_aborts() {
    let mut chain = Chain::new();
    let admin = chain.generate();
    chain.initialize(admin);
    let fee_dest = chain.generate();
    let creator = chain.generate();
    let token = chain.generate();
    chain.mint(token, creator, 10);
    ok(chain.contract.update_fee(admin, 100, fee_dest, FeeMode::Treasury));
    let deadline = chain.now + 100;
    chain.create_market(creator, 1, deadline, token);
}

// Early exit

#[test]
fn test_exit_position_reduces_position_and_pays_user() {
    let (mut chain, token, _) = setup_market_with_token();
    let bettor = chain.generate();
    chain.mint(token, bettor, 500_000_000);
    chain.place_bet(1, 0, bettor, 100_000_000);

    let balance_before = chain.balance(token, bettor);
    let position_before = chain.contract.get_user_position(1, bettor, 0);
    chain.exit_position(1, 0, bettor, 40_000_000);
    let balance_after = chain.balance(token, bettor);
    let position_after = chain.contract.get_user_position(1, bettor, 0);

    assert!(balance_after > balance_before);
    assert_eq!(position_before - position_after, 40_000_000);
}

#[test]
fn test_exit_position_routes_fee_to_treasury() {
    let (mut chain, token, fee_dest) = setup_market_with_token();
    let bettor = chain.generate();
    chain.mint(token, bettor, 500_000_000);
    chain.place_bet(1, 0, bettor, 100_000_000);

    let treasury_before = chain.balance(token, fee_dest);
    chain.exit_position(1, 0, bettor, 20_000_000);
    let treasury_after = chain.balance(token, fee_dest);
    assert!(treasury_after > treasury_before);
}

#[test]
#[should_panic(expected = "Insufficient position balance")]
fn test_exit_position_rejects_excess_amount() {
    let (mut chain, token, _) = setup_market_with_token();
    let bettor = chain.generate();
    chain.mint(token, bettor, 500_000_000);
    chain.place_bet(1, 0, bettor, 10_000_000);
    chain.exit_position(1, 0, bettor, 20_000_000);
}

#[test]
fn test_exit_position_reduces_total_shares() {
    let (mut chain, token, _) = setup_market_with_token();
    let bettor = chain.generate();
    chain.mint(token, bettor, 500_000_000);
    chain.place_bet(1, 0, bettor, 100_000_000);
    let total_before = chain.contract.get_total_shares(1);
    chain.exit_position(1, 0, bettor, 25_000_000);
    let total_after = chain.contract.get_total_shares(1);
    assert!(total_after < total_before);
}

#[test]
fn test_max_fee_accepted() {
    let (mut chain, admin, _, _, _) = setup();
    let fee_dest = chain.generate();
    ok(chain.contract.update_fee(admin, i128::MAX, fee_dest, FeeMode::Treasury));
    let (fee, _, _) = chain.contract.get_fee_config();
    assert_eq!(fee, i128::MAX);
}

#[test]
#[should_panic]
fn test_update_fee_requiresadmin_auth() {
    let mut chain = Chain::new();
    let admin = chain.generate();
    chain.initialize(admin);
    let rando = chain.generate();
    ok(chain.contract.update_fee(rando, 100, rando, FeeMode::Treasury));
}

#[test]
fn test_fee_can_be_reset_to_zero() {
    let (mut chain, admin, _, token, _) = setup();
    let fee_dest = chain.generate();
    ok(chain.contract.update_fee(admin, 500, fee_dest, FeeMode::Treasury));
    ok(chain.contract.update_fee(admin, 0, fee_dest, FeeMode::Treasury));
    let (fee, _, _) = chain.contract.get_fee_config();
    assert_eq!(fee, 0);
    let creator = chain.generate();
    let deadline = chain.now + 100;
    chain.create_market(creator, 2, deadline, token);
    assert_eq!(chain.market(2).id, 2);
}

// Bet caps

#[test]
fn test_bet_limits_defaults() {
    let mut chain = Chain::new();
    let admin = chain.generate();
    chain.initialize(admin);
    let (min, max) = chain.contract.get_bet_limits();
    assert_eq!(min, 1);
    assert_eq!(max, i128::MAX);
}

#[test]
fn test_update_bet_limits_and_get() {
    let (mut chain, admin, _, _, _) = setup();
    ok(chain.contract.update_bet_limits(admin, 5_000_000, 100_000_000));
    let (min, max) = chain.contract.get_bet_limits();
    assert_eq!(min, 5_000_000);
    assert_eq!(max, 100_000_000);
}

#[test]
#[should_panic(expected = "bet exceeds cap")]
fn test_bet_above_max_panics() {
    let (mut chain, admin, _, _, _) = setup();
    ok(chain.contract.update_bet_limits(admin, 1_000_000, 10_000_000));
    let bettor = chain.generate();
    chain.place_bet(1, 0, bettor, 10_000_001);
}

#[test]
#[should_panic(expected = "bet below minimum")]
fn test_bet_below_min_panics() {
    let (mut chain, admin, _, _, _) = setup();
    ok(chain.contract.update_bet_limits(admin, 5_000_000, 100_000_000));
    let bettor = chain.generate();
    chain.place_bet(1, 0, bettor, 1_000_000);
}

#[test]
fn test_bet_at_exact_limits_succeeds() {
    let (mut chain, admin, _, token, _) = setup();
    ok(chain.contract.update_bet_limits(admin, 1_000_000, 50_000_000));
    let bettor1 = chain.generate();
    let bettor2 = chain.generate();
    chain.mint(token, bettor1, 100_000_000);
    chain.mint(token, bettor2, 100_000_000);
    chain.place_bet(1, 0, bettor1, 1_000_000);
    chain.place_bet(1, 1, bettor2, 50_000_000);
}

#[test]
#[should_panic(expected = "max must be >= min")]
fn test_update_bet_limits_max_less_than_min_panics() {
    let (mut chain, admin, _, _, _) = setup();
    ok(chain.contract.update_bet_limits(admin, 10_000_000, 5_000_000));
}

#[test]
#[should_panic(expected = "min must be >= 1")]
fn test_update_bet_limits_zero_min_panics() {
    let (mut chain, admin, _, _, _) = setup();
    ok(chain.contract.update_bet_limits(admin, 0, 10_000_000));
}

#[test]
fn test_update_bet_limits_zero_max_removes_cap() {
    let (mut chain, admin, _, _, _) = setup();
    ok(chain.contract.update_bet_limits(admin, 1_000_000, 10_000_000));
    ok(chain.contract.update_bet_limits(admin, 1_000_000, 0));
    let (_, max) = chain.contract.get_bet_limits();
    assert_eq!(max, i128::MAX);
}

// Pricing

#[test]
fn test_lmsr_price_equal_at_creation() {
    let (chain, _, _, _, _) = setup();
    let p0 = ok(chain.contract.get_lmsr_price(1, 0));
    let p1 = ok(chain.contract.get_lmsr_price(1, 1));
    assert!((p0 - 5_000_000).abs() < 50_000, "p0={}", p0);
    assert!((p1 - 5_000_000).abs() < 50_000, "p1={}", p1);
}

#[test]
fn test_lmsr_price_shifts_after_bet() {
    let (mut chain, _, _, token, _) = setup();
    let bettor = chain.generate();
    chain.mint(token, bettor, 1_000_000_000);
    chain.place_bet(1, 0, bettor, 50_000_000);
    let p0 = ok(chain.contract.get_lmsr_price(1, 0));
    let p1 = ok(chain.contract.get_lmsr_price(1, 1));
    assert!(p0 > 5_000_000, "p0 should be > 0.5 after buying: {}", p0);
    assert!(p1 < 5_000_000, "p1 should be < 0.5 after buying: {}", p1);
}

#[test]
fn test_lmsr_outcome_shares_updated() {
    let (mut chain, _, _, token, _) = setup();
    let bettor = chain.generate();
    chain.mint(token, bettor, 100_000_000);
    chain.place_bet(1, 0, bettor, 10_000_000);
    let shares = ok(chain.contract.get_outcome_shares(1));
    assert_eq!(shares[0], 10_000_000);
    assert_eq!(shares[1], 0);
}

#[test]
fn test_lmsr_cost_delta_charged_not_raw_amount() {
    let (mut chain, _, _, token, _) = setup();
    let bettor = chain.generate();
    chain.mint(token, bettor, 100_000_000);
    let shares_before = chain.contract.get_total_shares(1);
    chain.place_bet(1, 0, bettor, 10_000_000);
    let shares_after = chain.contract.get_total_shares(1);
    let cost_delta = shares_after - shares_before;
    assert!(cost_delta > 0, "cost delta must be positive");
    assert!(cost_delta < 10_000_000, "cost delta should be < raw amount for large b");
}

#[test]
#[should_panic(expected = "lmsr_b must be positive")]
fn test_create_market_zero_b_panics() {
    let (mut chain, _, _, token, _) = setup();
    let creator = chain.generate();
    let deadline = chain.now + 100;
    ok(chain.try_create_market(creator, 2, options(), deadline, token, 0, None));
}

// Conditional market resolution

fn resolve_market_helper(
    chain: &mut Chain,
    token: Address,
    id: u64,
    winning_outcome: u32,
    condition: Option<(u64, u32)>,
) {
    let creator = chain.generate();
    let deadline = chain.now + 100;
    ok(chain.try_create_market(creator, id, options(), deadline, token, B, condition));
    chain.propose_resolution(creator, id, winning_outcome);
    chain.now += LIVENESS_WINDOW + 1;
    chain.resolve_market(creator, id, winning_outcome);
}

#[test]
fn test_conditional_market_resolves_when_condition_met() {
    let (mut chain, _, creator, token, _) = setup();
    chain.propose_resolution(creator, 1, 0);
    chain.now += LIVENESS_WINDOW + 1;
    chain.resolve_market(creator, 1, 0);
    resolve_market_helper(&mut chain, token, 2, 0, Some((1, 0)));
    assert_eq!(chain.market(2).status, MarketStatus::Resolved);
}

#[test]
fn test_conditional_market_voided_when_condition_not_met() {
    let (mut chain, _, creator, token, _) = setup();
    chain.propose_resolution(creator, 1, 1);
    chain.now += LIVENESS_WINDOW + 1;
    chain.resolve_market(creator, 1, 1);
    resolve_market_helper(&mut chain, token, 2, 0, Some((1, 0)));
    assert_eq!(chain.market(2).status, MarketStatus::Voided);
}

#[test]
#[should_panic(expected = "condition market not yet resolved")]
fn test_conditional_market_panics_if_condition_unresolved() {
    let (mut chain, _, _, token, _) = setup();
    resolve_market_helper(&mut chain, token, 2, 0, Some((1, 0)));
}

/// Market 1 resolved to outcome 1, and market 2, which expects outcome 0 of
/// market 1, voided with a bet of `amount` shares in it. Returns what the
/// bettor paid.
fn voided_market(amount: i128) -> (Chain, Address, Address, i128) {
    let mut chain = Chain::new();
    let admin = chain.generate();
    chain.initialize(admin);
    let token = chain.generate();
    let bettor = chain.generate();
    chain.mint(token, bettor, 500_000_000);
    let creator = chain.generate();
    let deadline = chain.now + 86400;
    chain.create_market(creator, 1, deadline, token);
    ok(chain.contract.set_token_whitelist(admin, token, true));
    chain.propose_resolution(creator, 1, 1);
    chain.now += LIVENESS_WINDOW + 1;
    chain.resolve_market(creator, 1, 1);

    let deadline = chain.now + 86400;
    ok(chain.try_create_market(creator, 2, options(), deadline, token, B, Some((1, 0))));
    let balance_before = chain.balance(token, bettor);
    chain.place_bet(2, 0, bettor, amount);
    let cost_paid = balance_before - chain.balance(token, bettor);
    chain.propose_resolution(creator, 2, 0);
    chain.now += LIVENESS_WINDOW + 1;
    chain.resolve_market(creator, 2, 0);
    (chain, token, bettor, cost_paid)
}

#[test]
fn test_claim_refund_on_voided_market() {
    let (mut chain, token, bettor, cost_paid) = voided_market(10_000_000);
    assert_eq!(chain.market(2).status, MarketStatus::Voided);
    let balance_before_refund = chain.balance(token, bettor);
    let refunded = chain.claim_refund(2, bettor);
    let balance_after_refund = chain.balance(token, bettor);
    assert_eq!(refunded, cost_paid);
    assert_eq!(balance_after_refund - balance_before_refund, cost_paid);
}

#[test]
#[should_panic(expected = "Market is not voided")]
fn test_claim_refund_on_active_market_panics() {
    let (mut chain, _, _, _, _) = setup();
    let bettor = chain.generate();
    chain.claim_refund(1, bettor);
}

#[test]
#[should_panic(expected = "Already refunded")]
fn test_claim_refund_double_claim_panics() {
    let (mut chain, _, bettor, _) = voided_market(10_000_000);
    chain.claim_refund(2, bettor);
    chain.claim_refund(2, bettor);
}

#[test]
#[should_panic(expected = "Token not whitelisted")]
fn test_place_bet_unwhitelisted_token_panics() {
    let mut chain = Chain::new();
    chain.now = 1_000_000;
    let admin = chain.generate();
    chain.initialize(admin);
    let invalid_token = chain.generate();
    let creator = chain.generate();
    let bettor = chain.generate();
    let deadline = chain.now + 86400;
    chain.create_market(creator, 999, deadline, invalid_token);
    chain.place_bet(999, 0, bettor, 10_000_000);
}

// Oracle proposals

#[test]
fn test_propose_outcome_demo() {
    let mut chain = Chain::new();
    let admin = chain.generate();
    chain.initialize(admin);
    ok(chain.contract.assign_role(admin, Role::FeeSetter, admin));
    ok(chain.contract.assign_role(admin, Role::Pauser, admin));
    let fee_dest = chain.generate();
    ok(chain.contract.update_fee(admin, 0, fee_dest, FeeMode::Treasury));
    let token = chain.generate();
    ok(chain.contract.set_token_whitelist(admin, token, true));
    ok(chain.contract.update_bet_limits(admin, 1, 0));
    let oracle = chain.generate();
    ok(chain.contract.assign_role(admin, Role::Oracle, oracle));
    let creator = chain.generate();
    let deadline = chain.now + 86400;
    let market_id: u64 = 999;
    chain.create_market(creator, market_id, deadline, token);
    assert_eq!(chain.market(market_id).status, MarketStatus::Active);

    ok(chain.contract.lock_market(oracle, market_id));
    assert_eq!(chain.market(market_id).status, MarketStatus::Locked);

    chain.propose_outcome(oracle, market_id, 0);
    assert_eq!(chain.market(market_id).status, MarketStatus::Proposed);
    assert_eq!(chain.market(market_id).proposed_outcome, Some(0));

    let record = chain.contract.markets.get(market_id).unwrap();
    assert_eq!(record.unlock_timestamp.unwrap() - chain.now, 86400);
    assert_eq!(record.proposed_outcome_id, Some(0));

    chain.now += 86400 + 1;
    chain.settle(market_id);
    assert_eq!(chain.market(market_id).status, MarketStatus::Resolved);
}

fn oracle_setup(id: u64) -> (Chain, Address) {
    let mut chain = Chain::new();
    let admin = chain.generate();
    let oracle = chain.generate();
    chain.initialize(admin);
    ok(chain.contract.assign_role(admin, Role::Oracle, oracle));
    let creator = chain.generate();
    ok(chain.contract.assign_role(admin, Role::Pauser, creator));
    let token = chain.generate();
    ok(chain.contract.assign_role(admin, Role::FeeSetter, admin));
    ok(chain.contract.set_token_whitelist(admin, token, true));
    let deadline = chain.now + 1000;
    let two = vec!["A".to_string(), "B".to_string()];
    ok(chain.try_create_market(creator, id, two, deadline, token, 1000, None));
    (chain, oracle)
}

#[test]
fn test_lock_market_and_propose_outcome() {
    let (mut chain, oracle) = oracle_setup(1);
    ok(chain.contract.lock_market(oracle, 1));
    chain.propose_outcome(oracle, 1, 0);
    chain.now += 86_500;
    chain.settle(1);
    assert_eq!(chain.market(1).status, MarketStatus::Resolved);
}

#[test]
#[should_panic(expected = "Challenge timer has not expired")]
fn test_settle_fails_before_timer() {
    let (mut chain, oracle) = oracle_setup(2);
    ok(chain.contract.lock_market(oracle, 2));
    chain.propose_outcome(oracle, 2, 0);
    chain.now += 36_000;
    chain.settle(2);
}

#[test]
#[should_panic(expected = "AccessDenied: caller does not hold role Oracle")]
fn test_unauthorized_proposer() {
    let (mut chain, _) = oracle_setup(3);
    let stranger = chain.generate();
    ok(chain.contract.lock_market(stranger, 3));
}

// What each kind of refusal answers to

/// A market with number 1 that was resolved to outcome 0 with nobody in it.
fn resolved_empty() -> (Chain, Address, Address, Address) {
    let (mut chain, admin, creator, token, _) = setup();
    chain.propose_resolution(creator, 1, 0);
    chain.now += LIVENESS_WINDOW;
    chain.resolve_market(creator, 1, 0);
    (chain, admin, creator, token)
}

#[test]
fn refusals_of_roles() {
    let (mut chain, admin, creator, token, _) = setup();
    let stranger = chain.generate();
    let c = &mut chain.contract;
    let denied = |role: Role| Error::AccessDenied(role);
    assert_eq!(c.assign_role(stranger, Role::Oracle, stranger), Err(denied(Role::SuperAdmin)));
    assert_eq!(c.revoke_role(stranger, Role::Oracle), Err(denied(Role::SuperAdmin)));
    assert_eq!(c.revoke_role(admin, Role::SuperAdmin), Err(Error::CannotRevokeSuperAdmin));
    assert_eq!(c.set_token_whitelist(stranger, token, true), Err(denied(Role::FeeSetter)));
    assert_eq!(c.set_paused(admin, 1, true).err(), Some(denied(Role::Pauser)));
    assert_eq!(c.set_global_status(creator, false), Err(denied(Role::SuperAdmin)));
    assert_eq!(c.lock_market(admin, 1), Err(denied(Role::Oracle)));
    assert_eq!(c.propose_resolution(0, stranger, 1, 0), Err(denied(Role::Resolver)));
    assert_eq!(c.invest_vault(creator), Err(denied(Role::SuperAdmin)));
    assert_eq!(c.batch_payout(1, vec![], stranger).err(), Some(denied(Role::Resolver)));
    assert_eq!(c.get_role(Role::Oracle), Some(creator));
    assert_eq!(c.revoke_role(admin, Role::Oracle), Ok(()));
    assert_eq!(c.get_role(Role::Oracle), None);
    assert_eq!(c.lock_market(creator, 1), Err(denied(Role::Oracle)));
    assert_eq!(c.set_token_whitelist(admin, token, false), Ok(()));
    assert_eq!(denied(Role::Pauser).message(), "AccessDenied: caller does not hold role Pauser");
}

#[test]
fn refusals_of_new_markets() {
    let (mut chain, admin, creator, token, deadline) = setup();
    let nine: Vec<String> = (0..9).map(|i| format!("option {}", i)).collect();
    let eight: Vec<String> = nine[0..8].to_vec();
    let res = chain.try_create_market(creator, 2, nine, deadline, token, B, None);
    assert_eq!(res, Err(Error::TooManyOptions));
    let res = chain.try_create_market(creator, 2, eight, deadline, token, B, None);
    assert_eq!(res, Ok(()));
    assert_eq!(chain.contract.get_outcome_count(2), Ok(8));
    assert_eq!(chain.contract.get_outcome_count(3), Err(Error::MarketNotFound));

    chain.contract.config.creation_fee = 5;
    chain.contract.config.fee_destination = None;
    let res = chain.try_create_market(creator, 3, options(), deadline, token, B, None);
    assert_eq!(res, Err(Error::FeeDestinationMissing));
    assert_eq!(
        chain.contract.update_fee(admin, -1, admin, FeeMode::Burn),
        Err(Error::NegativeFee)
    );
}

#[test]
fn creation_announces_its_fee() {
    let (mut chain, admin, creator, token, deadline) = setup();
    let dest = chain.generate();
    chain.mint(token, creator, 100);
    ok(chain.contract.update_fee(admin, 30, dest, FeeMode::Treasury));
    chain.events.clear();
    chain.create_market(creator, 2, deadline, token);
    assert_eq!(
        chain.events,
        vec![
            Event::FeeCollected { market_id: 2, creator, destination: dest, amount: 30 },
            Event::MarketCreated {
                market_id: 2,
                creator,
                outcomes: 2,
                deadline,
                token,
                lmsr_b: B,
                creation_fee: 30,
            },
        ]
    );
}

#[test]
fn refusals_of_fee_splits() {
    let mut chain = Chain::new();
    let admin = chain.generate();
    chain.initialize(admin);
    let c = &mut chain.contract;
    assert_eq!(c.get_fee_split_config().err(), Some(Error::TreasuryMissing));
    assert_eq!(c.distribute_fee_split(10, admin).err(), Some(Error::TreasuryMissing));
    c.config.treasury = Some(admin);
    assert_eq!(c.distribute_fee_split(10, admin).err(), Some(Error::LpAddressMissing));
    c.config.lp_address = Some(admin);
    assert_eq!(c.distribute_fee_split(10, admin).err(), Some(Error::BurnAddressMissing));
    assert_eq!(c.get_fee_split_config().err(), Some(Error::BurnAddressMissing));
    c.config.burn_address = Some(admin);
    assert_eq!(c.distribute_fee_split(i128::MAX, admin).err(), Some(Error::Overflow));
    assert_eq!(c.update_fee_split(admin, 10000, 1, 0), Err(Error::FeeSplitNotWhole));
    assert_eq!(c.update_fee_split(admin, u32::MAX, 1, 0), Err(Error::Overflow));
    assert!(c.get_fee_split_config().is_ok());
}

#[test]
fn a_fee_is_split_in_basis_points() {
    let mut chain = Chain::new();
    let admin = chain.generate();
    let (token, t, l, b) = (chain.generate(), chain.generate(), chain.generate(), chain.generate());
    chain.initialize(admin);
    ok(chain.contract.configure_fee_split(admin, 7000, 2000, 1000, t, l, b));
    let effects = ok(chain.contract.distribute_fee_split(999, token));
    assert_eq!(
        effects.transfers,
        vec![
            Transfer::pay(token, t, 699),
            Transfer::pay(token, l, 199),
            Transfer::pay(token, b, 99),
        ]
    );
    assert_eq!(
        effects.events,
        vec![Event::FeeSplit { fee: 999, treasury: 699, lp: 199, burn: 99 }]
    );
    let effects = ok(chain.contract.distribute_fee_split(5, token));
    assert_eq!(effects.transfers, vec![Transfer::pay(token, t, 3), Transfer::pay(token, l, 1)]);
    let effects = ok(chain.contract.distribute_fee_split(0, token));
    assert!(effects.transfers.is_empty() && effects.events.is_empty());
    ok(chain.contract.update_fee_addresses(admin, b, t, l));
    let split = FeeConfig { treasury_bps: 7000, lp_bps: 2000, burn_bps: 1000 };
    assert_eq!(chain.contract.get_fee_split_config(), Ok((split, b, t, l)));
}

#[test]
fn refusals_of_bets() {
    let (mut chain, _, _, _, _) = setup();
    let bettor = chain.generate();
    let c = &mut chain.contract;
    assert_eq!(c.place_bet(0, 77, 0, bettor, 5).err(), Some(Error::MarketNotFound));
    assert_eq!(c.place_bet_with_sig(0, 1, 0, bettor, 50, 1).err(), Some(Error::InvalidNonce));
    c.nonces.set(bettor, u64::MAX);
    let last = c.place_bet_with_sig(0, 1, 0, bettor, 50, u64::MAX);
    assert_eq!(last.err(), Some(Error::Overflow));
    assert_eq!(c.get_total_shares(1), 0);
    assert_eq!(c.get_lmsr_price(1, 2), Err(Error::InvalidOption));
    assert_eq!(c.get_lmsr_price(2, 0), Err(Error::MarketNotFound));
    ok(c.place_bet(0, 1, 0, bettor, i128::MAX));
    assert_eq!(c.place_bet(0, 1, 0, bettor, 1).err(), Some(Error::Overflow));
}

#[test]
fn a_bet_too_small_to_cost_anything_is_refused() {
    let (mut chain, _, creator, token, deadline) = setup();
    ok(chain.try_create_market(creator, 2, options(), deadline, token, B * B, None));
    let bettor = chain.generate();
    let leader = chain.generate();
    chain.mint(token, leader, 10 * B * B);
    chain.place_bet(2, 1, leader, 10 * B * B);
    let res = chain.contract.place_bet(chain.now, 2, 0, bettor, 1);
    assert_eq!(res.err(), Some(Error::CostNotPositive));
}

#[test]
fn pausing_a_market_that_is_not_there_yet() {
    let (mut chain, _, creator, token, deadline) = setup();
    let bettor = chain.generate();
    ok(chain.contract.set_paused(creator, 9, true));
    assert!(chain.contract.get_is_paused(9));
    let res = chain.contract.place_bet(0, 9, 0, bettor, 5);
    assert_eq!(res.err(), Some(Error::MarketPaused));
    chain.create_market(creator, 9, deadline, token);
    assert!(!chain.contract.get_is_paused(9));
}

// Trading

#[test]
fn bets_are_charged_the_cost_of_the_scoring_rule() {
    let (mut chain, _, _, token, _) = setup();
    let bettor = chain.generate();
    chain.mint(token, bettor, 1_000_000_000);
    chain.events.clear();
    chain.place_bet(1, 0, bettor, 10_000_000);
    assert_eq!(chain.contract.get_total_shares(1), 74_439_666 - 69_314_718);
    assert_eq!(chain.balance(token, bettor), 1_000_000_000 - 5_124_948);
    assert_eq!(
        chain.events,
        vec![Event::BetPlaced {
            market_id: 1,
            bettor,
            option_index: 0,
            cost: 5_124_948,
            shares: 10_000_000,
        }]
    );
    chain.place_bet(1, 0, bettor, 40_000_000);
    assert_eq!(chain.contract.get_total_shares(1), 97_407_698 - 69_314_718);
    assert_eq!(chain.contract.get_user_position(1, bettor, 0), 50_000_000);
    assert_eq!(chain.contract.get_user_position(1, bettor, 1), 0);
    assert_eq!(chain.contract.get_user_position(1, bettor, 99), 0);
    assert_eq!(chain.contract.get_lmsr_price(1, 0), Ok(6_224_593));
    assert_eq!(chain.contract.get_lmsr_price(1, 1), Ok(3_775_406));
}

#[test]
fn pool_balances_are_the_stakes() {
    let (mut chain, _, _, token, _) = setup();
    let bettor = chain.generate();
    chain.mint(token, bettor, 1_000_000_000);
    assert_eq!(chain.contract.get_outcome_pool_balances(1), vec![(0, 0), (1, 0)]);
    chain.place_bet(1, 1, bettor, 3_000_000);
    chain.place_bet(1, 0, bettor, 1_000_000);
    chain.exit_position(1, 1, bettor, 500_000);
    assert_eq!(chain.contract.get_outcome_pool_balances(1), vec![(0, 1_000_000), (1, 2_500_000)]);
    assert_eq!(chain.contract.get_outcome_pool_balance(1, 1), 2_500_000);
    assert_eq!(chain.contract.get_outcome_pool_balance(1, 2), 0);
    assert_eq!(chain.contract.get_outcome_pool_balances(2), vec![]);
    assert_eq!(chain.contract.get_outcome_pool_balance(2, 0), 0);
}

#[test]
fn all_shares_are_held_by_somebody() {
    let (mut chain, _, _, token, _) = setup();
    let (one, two) = (chain.generate(), chain.generate());
    chain.mint(token, one, 1_000_000_000);
    chain.mint(token, two, 1_000_000_000);
    for (who, option, amount) in [(one, 0, 3_000_000), (two, 0, 2_000_000), (two, 1, 700_000)] {
        chain.place_bet(1, option, who, amount);
    }
    chain.exit_position(1, 0, one, 1_000_000);
    let record = chain.contract.markets.get(1).unwrap();
    for outcome in 0..2u32 {
        let held = record.positions[outcome as usize].sum();
        assert_eq!(held.ok(), record.outcome_shares.get(outcome));
    }
    assert_eq!(record.outcome_shares.to_vec(), vec![4_000_000, 700_000]);
}

#[test]
fn an_exit_pays_the_value_less_the_fee() {
    let (mut chain, token, fee_dest) = setup_market_with_token();
    let bettor = chain.generate();
    chain.mint(token, bettor, 500_000_000);
    chain.place_bet(1, 0, bettor, 100_000_000);
    assert_eq!(chain.contract.get_total_shares(1), 131_326_168 - 69_314_718);
    let paid = chain.exit_position(1, 0, bettor, 40_000_000);
    assert_eq!(paid, 27_577_373 - 137_886);
    assert_eq!(chain.balance(token, fee_dest), 137_886);
    assert_eq!(chain.contract.get_total_shares(1), 103_748_795 - 69_314_718);
}

#[test]
fn an_exit_undoes_a_bet() {
    let (mut chain, token, _) = setup_market_with_token();
    let (one, two) = (chain.generate(), chain.generate());
    chain.mint(token, one, 500_000_000);
    chain.mint(token, two, 500_000_000);
    chain.place_bet(1, 1, one, 7_000_000);
    let total = chain.contract.get_total_shares(1);
    let shares = ok(chain.contract.get_outcome_shares(1));
    chain.place_bet(1, 0, two, 30_000_000);
    chain.exit_position(1, 0, two, 30_000_000);
    assert_eq!(chain.contract.get_total_shares(1), total);
    assert_eq!(chain.contract.get_outcome_shares(1), Ok(shares));
    assert_eq!(chain.contract.get_user_position(1, two, 0), 0);
}

#[test]
fn refusals_of_exits() {
    let (mut chain, token, _) = setup_market_with_token();
    let (holder, other) = (chain.generate(), chain.generate());
    chain.mint(token, holder, 500_000_000);
    chain.place_bet(1, 0, holder, 10_000_000);
    let c = &mut chain.contract;
    assert_eq!(c.exit_position(1, 0, holder, 0).err(), Some(Error::AmountNotPositive));
    assert_eq!(c.exit_position(2, 0, holder, 1).err(), Some(Error::MarketNotFound));
    assert_eq!(c.exit_position(1, 2, holder, 1).err(), Some(Error::InvalidOption));
    let res = c.exit_position(1, 0, other, 10_000_000);
    assert_eq!(res.err(), Some(Error::InsufficientPosition));
    c.config.treasury = None;
    let res = c.exit_position(1, 0, holder, 10_000_000);
    assert_eq!(res.err(), Some(Error::TreasuryMissing));
    assert_eq!(c.get_user_position(1, holder, 0), 10_000_000);
}

#[test]
fn an_exit_worth_nothing_is_refused() {
    let (mut chain, _, creator, token, deadline) = setup();
    ok(chain.try_create_market(creator, 2, options(), deadline, token, 1000, None));
    let (small, leader) = (chain.generate(), chain.generate());
    chain.mint(token, small, 1_000_000);
    chain.mint(token, leader, 1_000_000);
    chain.place_bet(2, 0, small, 10);
    chain.place_bet(2, 1, leader, 100_000);
    let res = chain.contract.exit_position(2, 0, small, 10);
    assert_eq!(res.err(), Some(Error::PayoutNotPositive));
}

#[test]
fn liquidity_earns_its_part_of_the_pool() {
    let (mut chain, _, creator, token, _) = setup();
    let (one, two) = (chain.generate(), chain.generate());
    chain.mint(token, one, 300);
    chain.mint(token, two, 100);
    chain.events.clear();
    for (who, amount) in [(one, 100), (two, 100), (one, 200)] {
        let effects = ok(chain.contract.provide_liquidity(&chain.env, 1, who, amount));
        chain.perform(effects);
    }
    assert_eq!(chain.events.len(), 3);
    assert_eq!(
        chain.events[2],
        Event::LiquidityProvided { market_id: 1, provider: one, amount: 200 }
    );
    assert_eq!(chain.contract.get_total_shares(1), 400);
    assert_eq!(
        chain.contract.bump_market_ttl(1),
        Ok(vec![
            Entry::Data(DataKey::Market(1)),
            Entry::Data(DataKey::OutcomePoolBalances(1)),
            Entry::Data(DataKey::LpContribution(1)),
            Entry::Position(1, 0),
            Entry::Position(1, 1),
            Entry::Data(DataKey::UserCost(1, one)),
            Entry::Data(DataKey::UserCost(1, two)),
        ])
    );
    let res = chain.contract.claim_lp_reward(1, one);
    assert_eq!(res.err(), Some(Error::MarketNotResolved));
    chain.propose_resolution(creator, 1, 0);
    chain.now += LIVENESS_WINDOW;
    chain.resolve_market(creator, 1, 0);
    assert_eq!(
        chain.contract.bump_market_ttl(1),
        Ok(vec![
            Entry::Data(DataKey::Market(1)),
            Entry::Data(DataKey::OutcomePoolBalances(1)),
            Entry::Data(DataKey::LpContribution(1)),
            Entry::Data(DataKey::LpFeePool(1)),
            Entry::Data(DataKey::ClaimDeadline(1)),
            Entry::Position(1, 0),
            Entry::Position(1, 1),
            Entry::Data(DataKey::UserCost(1, one)),
            Entry::Data(DataKey::UserCost(1, two)),
        ])
    );

    let (reward, effects) = ok(chain.contract.claim_lp_reward(1, one));
    assert_eq!(reward, 9);
    assert_eq!(
        effects.events,
        vec![Event::LpRewardClaimed { market_id: 1, provider: one, reward: 9 }]
    );
    chain.perform(effects);
    let res = chain.contract.claim_lp_reward(1, one);
    assert_eq!(res.err(), Some(Error::NoLpContribution));
    let (reward, effects) = ok(chain.contract.claim_lp_reward(1, two));
    assert_eq!(reward, 3);
    chain.perform(effects);
    assert_eq!(chain.balance(token, one), 9);
    assert_eq!(chain.balance(token, two), 3);
    assert_eq!(chain.contract.claim_lp_reward(1, two).err(), Some(Error::NoFeePool));
}

#[test]
fn refusals_of_liquidity() {
    let (mut chain, _, creator, token) = resolved_empty();
    let lp = chain.generate();
    let env = &chain.env;
    let c = &mut chain.contract;
    assert_eq!(c.provide_liquidity(env, 1, lp, 0).err(), Some(Error::AmountNotPositive));
    assert_eq!(c.provide_liquidity(env, 1, lp, 1).err(), Some(Error::MarketNotActive));
    assert_eq!(c.claim_lp_reward(1, lp).err(), Some(Error::NoFeePool));
    assert_eq!(c.bump_market_ttl(5), Err(Error::MarketNotFound));

    let deadline = chain.now + 10;
    chain.create_market(creator, 2, deadline, token);
    let (crumb, loaf) = (chain.generate(), chain.generate());
    ok(chain.contract.provide_liquidity(&chain.env, 2, crumb, 1));
    ok(chain.contract.provide_liquidity(&chain.env, 2, loaf, 399));
    let res = chain.contract.provide_liquidity(&chain.env, 2, loaf, i128::MAX);
    assert_eq!(res.err(), Some(Error::Overflow));
    chain.propose_resolution(creator, 2, 0);
    chain.now += LIVENESS_WINDOW;
    chain.resolve_market(creator, 2, 0);
    let res = chain.contract.claim_lp_reward(2, crumb);
    assert_eq!(res.err(), Some(Error::RewardRoundsToZero));
}

// Resolution

#[test]
fn the_challenge_period_lasts_a_day() {
    let (mut chain, _, creator, token, _) = setup();
    let bettor = chain.generate();
    chain.mint(token, bettor, 100_000_000);
    chain.place_bet(1, 1, bettor, 1_000_000);
    chain.now = 100_000;
    let c = &mut chain.contract;
    assert_eq!(c.propose_outcome(100_000, creator, 1, 0), Err(Error::MarketNotLocked));
    ok(c.lock_market(creator, 1));
    assert_eq!(c.lock_market(creator, 1), Err(Error::MarketNotActive));
    assert_eq!(c.propose_outcome(100_000, creator, 1, 2), Err(Error::InvalidOutcome));
    assert_eq!(c.propose_outcome(u64::MAX, creator, 1, 1), Err(Error::Overflow));
    assert_eq!(c.settle(100_000, 1).err(), Some(Error::MarketNotProposed));
    ok(c.propose_outcome(100_000, creator, 1, 1));
    assert_eq!(c.settle(186_399, 1).err(), Some(Error::ChallengeTimerRunning));

    let res = c.resolve_market(186_399, creator, 1, 1);
    assert_eq!(res.err(), Some(Error::ChallengeTimerRunning));

    // While the proposal stands, nobody is paid, however late it is.
    assert_eq!(c.batch_distribute(u64::MAX, 1, 5).err(), Some(Error::MarketNotResolved));
    let res = c.batch_payout(1, vec![bettor], creator);
    assert_eq!(res.err(), Some(Error::MarketNotResolved));
    assert_eq!(ok(c.bulk_claim(vec![1], bettor)).0, 0);
    assert_eq!(c.claim_original(1, bettor).err(), Some(Error::MarketNotResolved));
    assert_eq!(c.claim_refund(1, bettor).err(), Some(Error::MarketNotVoided));

    ok(c.resolve_market(186_400, creator, 1, 1));
    chain.now = 186_400;
    assert_eq!(chain.batch_distribute(1, 5), 1);
}

#[test]
fn a_disputed_proposal_waits_for_its_challenge_period_too() {
    let (mut chain, _, creator, token, _) = setup();
    let disputer = chain.generate();
    chain.mint(token, disputer, 10);
    ok(chain.contract.lock_market(creator, 1));
    ok(chain.contract.propose_outcome(1_000, creator, 1, 0));
    chain.dispute(1, disputer, 10);
    let c = &mut chain.contract;
    let res = c.resolve_market(87_399, creator, 1, 1);
    assert_eq!(res.err(), Some(Error::ChallengeTimerRunning));
    assert_eq!(c.settle(87_400, 1).err(), Some(Error::MarketNotProposed));
    ok(c.resolve_market(87_400, creator, 1, 1));
    assert_eq!(chain.market(1).winning_outcome, 1);
}

#[test]
fn no_batch_is_paid_before_the_unlock_time_on_record() {
    let (mut chain, _, _) = setup_market_with_winners(1);
    let mut record = chain.contract.markets.take(1);
    record.unlock_timestamp = Some(chain.now + 1);
    assert!(chain.contract.take_in(record));
    let res = chain.contract.batch_distribute(chain.now, 1, 5);
    assert_eq!(res.err(), Some(Error::SettlementBlocked));
    chain.now += 1;
    assert_eq!(chain.batch_distribute(1, 5), 1);
}

#[test]
fn the_liveness_window_lasts_a_day() {
    let (mut chain, _, creator, _, _) = setup();
    chain.now = 500;
    let c = &mut chain.contract;
    assert_eq!(c.propose_resolution(500, creator, 1, 2), Err(Error::InvalidOutcome));
    assert_eq!(c.resolve_market(500, creator, 1, 0).err(), Some(Error::NotProposedOrDisputed));
    assert_eq!(c.resolve_market(500, creator, 8, 0).err(), Some(Error::MarketNotFound));
    ok(c.propose_resolution(500, creator, 1, 1));
    assert_eq!(c.settle(500, 1).err(), Some(Error::UnlockTimestampMissing));
    let res = c.resolve_market(500 + LIVENESS_WINDOW - 1, creator, 1, 0);
    assert_eq!(res.err(), Some(Error::LivenessWindowOpen));
    let effects = ok(c.resolve_market(500 + LIVENESS_WINDOW, creator, 1, 0));
    assert_eq!(
        effects.events,
        vec![Event::MarketResolved {
            market_id: 1,
            winning_outcome: 0,
            total_pool: 0,
            fee_bps: 200,
        }]
    );
    assert_eq!(c.get_claim_deadline(1), 500 + LIVENESS_WINDOW);
    assert_eq!(c.get_claim_deadline(2), 0);
}

#[test]
fn records_with_gaps_are_refused() {
    let (mut chain, _, creator, _, _) = setup();
    let mut record = chain.contract.markets.take(1);
    record.market.status = MarketStatus::Proposed;
    record.unlock_timestamp = Some(0);
    assert!(chain.contract.take_in(record));
    assert_eq!(chain.contract.settle(0, 1).err(), Some(Error::ProposedOutcomeMissing));

    let mut record = chain.contract.markets.take(1);
    record.market.status = MarketStatus::Resolved;
    assert!(chain.contract.take_in(record));
    let res = chain.contract.sweep_unclaimed(&chain.env, u64::MAX, creator, 1);
    assert_eq!(res, Err(Error::ClaimDeadlineMissing));
    let mut record = chain.contract.markets.take(1);
    record.claim_deadline = Some(u64::MAX);
    assert!(chain.contract.take_in(record));
    let res = chain.contract.sweep_unclaimed(&chain.env, u64::MAX, creator, 1);
    assert_eq!(res, Err(Error::Overflow));
}

#[test]
fn conditions_are_looked_up() {
    let (mut chain, _, creator, token) = resolved_empty();
    let deadline = chain.now + 10;
    ok(chain.try_create_market(creator, 2, options(), deadline, token, B, Some((77, 0))));
    chain.propose_resolution(creator, 2, 1);
    chain.now += LIVENESS_WINDOW;
    let res = chain.contract.resolve_market(chain.now, creator, 2, 1);
    assert_eq!(res.err(), Some(Error::ConditionMarketNotFound));

    ok(chain.try_create_market(
        creator,
        3,
        options(),
        chain.now + 10,
        token,
        B,
        Some((1, 1)),
    ));
    chain.propose_resolution(creator, 3, 1);
    chain.now += LIVENESS_WINDOW;
    chain.events.clear();
    chain.resolve_market(creator, 3, 1);
    assert_eq!(
        chain.events,
        vec![Event::MarketVoided { market_id: 3, condition_market_id: 1, condition_outcome: 0 }]
    );
    assert_eq!(chain.market(3).status, MarketStatus::Voided);
    let res = chain.contract.claim_refund(3, creator);
    assert_eq!(res.err(), Some(Error::NothingToRefund));
}

#[test]
fn a_voided_market_stays_voided() {
    let (mut chain, _, bettor, _) = voided_market(10_000_000);
    let now = chain.now;
    let all = chain.generate();
    for role in [Role::Oracle, Role::Resolver] {
        chain.grant(role, all);
    }
    let c = &mut chain.contract;
    assert_eq!(c.lock_market(all, 2), Err(Error::MarketNotActive));
    assert_eq!(c.propose_outcome(now, all, 2, 0), Err(Error::MarketNotLocked));
    assert_eq!(c.propose_resolution(now, all, 2, 0), Err(Error::MarketNotActive));
    assert_eq!(c.settle(now, 2).err(), Some(Error::MarketNotProposed));
    assert_eq!(c.resolve_market(now, all, 2, 0).err(), Some(Error::NotProposedOrDisputed));
    assert_eq!(c.dispute(2, all, 5).err(), Some(Error::NotInProposedState));
    assert_eq!(c.batch_distribute(now, 2, 5).err(), Some(Error::MarketNotResolved));
    assert_eq!(ok(c.bulk_claim(vec![2], bettor)).0, 0);
    assert_eq!(ok(c.get_market(2)).status, MarketStatus::Voided);
}

#[test]
fn refusals_of_challenges() {
    let (mut chain, _, _, _, _) = setup();
    let disputer = chain.generate();
    let c = &mut chain.contract;
    assert_eq!(c.dispute(1, disputer, 0).err(), Some(Error::BondNotPositive));
    assert_eq!(c.dispute(1, disputer, 5).err(), Some(Error::NotInProposedState));
}

// Votes

#[test]
fn a_vote_carries_with_more_than_sixty_percent() {
    let (mut chain, _, _, _) = resolved_empty();
    let (a, b, d) = (chain.generate(), chain.generate(), chain.generate());
    let now = chain.now;
    let effects = ok(chain.contract.open_dispute(&chain.env, now, 1, a, 1));
    assert_eq!(effects.events, vec![Event::DisputeOpened { market_id: 1, caller: a }]);
    let c = &mut chain.contract;
    ok(c.cast_vote(now, 1, a, false, 40));
    ok(c.cast_vote(now, 1, b, true, 60));
    assert_eq!(ok(c.get_market(1)).status, MarketStatus::Resolved);
    assert_eq!(c.cast_vote(now, 1, b, true, 60), Err(Error::AlreadyVoted));
    ok(c.cast_vote(now, 1, d, true, 1));
    assert_eq!(ok(c.get_market(1)).status, MarketStatus::ReReview);
    let dispute = c.markets.get(1).unwrap().dispute.as_ref().unwrap();
    assert_eq!(dispute.total_votes, 101);
    assert_eq!(dispute.support_votes, 61);
    assert_eq!(dispute.votes.entries(), vec![(a, 40), (b, 60), (d, 1)]);
    assert_eq!(c.batch_distribute(now, 1, 5).err(), Some(Error::MarketNotResolved));
}

#[test]
fn refusals_of_votes() {
    let (mut chain, _, _, _, _) = setup();
    let voter = chain.generate();
    let env = soroban_sdk::Env::default();
    let res = chain.contract.open_dispute(&env, 0, 1, voter, 5);
    assert_eq!(res.err(), Some(Error::NotResolvedForDispute));
    assert_eq!(chain.contract.cast_vote(0, 1, voter, true, 5), Err(Error::DisputeNotFound));
    assert_eq!(chain.contract.cast_vote(0, 2, voter, true, 5), Err(Error::MarketNotFound));
    assert_eq!(chain.contract.close_dispute(0, 1), Err(Error::DisputeNotFound));

    let (mut chain, _, _, _) = resolved_empty();
    let now = chain.now;
    let res = chain.contract.open_dispute(&chain.env, now + 86_401, 1, voter, 5);
    assert_eq!(res.err(), Some(Error::DisputeWindowClosed));
    let res = chain.contract.open_dispute(&chain.env, now, 1, voter, 0);
    assert_eq!(res.err(), Some(Error::NotTokenHolder));
    ok(chain.contract.open_dispute(&chain.env, now + 86_400, 1, voter, 5));
    let res = chain.contract.open_dispute(&chain.env, now, 1, voter, 5);
    assert_eq!(res.err(), Some(Error::DisputeAlreadyOpened));

    let c = &mut chain.contract;
    let end = now + 2 * 86_400;
    assert_eq!(c.cast_vote(end, 1, voter, true, 0), Err(Error::NoVotingWeight));
    assert_eq!(c.cast_vote(end + 1, 1, voter, true, 5), Err(Error::VotingDeadlinePassed));
    assert_eq!(c.cast_vote(end, 1, voter, true, i128::MAX), Err(Error::Overflow));
    assert_eq!(c.close_dispute(end, 1), Err(Error::VotingInProgress));
    ok(c.close_dispute(end + 1, 1));
    assert_eq!(c.close_dispute(end + 1, 1), Err(Error::DisputeAlreadyClosed));
    assert_eq!(c.cast_vote(end, 1, voter, true, 5), Err(Error::DisputeNotActive));
}

// Payouts: three winners hold a million shares each, and two more million and
// some were paid in.

const POOL: i128 = 2_004_999;
const FEE: i128 = 40_099;
const SHARE: i128 = 654_966;

#[test]
fn batches_pay_the_pool_less_the_fee() {
    let (mut chain, winners, token) = setup_market_with_winners(3);
    let fee_dest = chain.contract.config.treasury.unwrap();
    assert_eq!(chain.contract.get_total_shares(1), POOL);
    let before: Vec<i128> = winners.iter().map(|w| chain.balance(token, *w)).collect();
    assert_eq!(chain.batch_distribute(1, 2), 2);
    assert_eq!(chain.balance(token, winners[0]), before[0] + SHARE);
    assert_eq!(chain.balance(token, winners[1]), before[1] + SHARE);
    assert_eq!(chain.balance(token, winners[2]), before[2]);
    assert_eq!(chain.balance(token, fee_dest), FEE);
    assert_eq!(chain.batch_distribute(1, 2), 1);
    assert_eq!(chain.balance(token, winners[2]), before[2] + SHARE);
    assert_eq!(chain.balance(token, fee_dest), FEE);
    assert_eq!(chain.contract.get_user_position(1, winners[0], 0), 0);
    assert_eq!(chain.contract.get_settlement_payout_count(1, 0), 3);
    assert_eq!(chain.contract.get_settlement_payout_count(2, 0), 0);
    assert_eq!(chain.batch_distribute(1, 2), 0);
    assert_eq!(chain.contract.get_settlement_payout_count(1, 0), 3);
}

#[test]
fn batches_of_any_sizes_pay_the_same() {
    for sizes in [vec![5, 2], vec![1, 2, 4], vec![3, 25, 1], vec![1, 1, 1, 1, 1, 1]] {
        let (mut chain, winners, token) = setup_market_with_winners(5);
        let fee_dest = chain.contract.config.treasury.unwrap();
        let pool = chain.contract.get_total_shares(1);
        let before: Vec<i128> = winners.iter().map(|w| chain.balance(token, *w)).collect();
        let mut left: u32 = 5;
        for size in sizes {
            let paid = chain.batch_distribute(1, size);
            assert_eq!(paid, left.min(size));
            left -= paid;
            assert_eq!(chain.contract.get_settlement_payout_count(1, 0), 5 - left);
        }
        assert_eq!(left, 0);
        let share = pool * 9_800 / 10_000 / 5;
        for i in 0..5 {
            assert_eq!(chain.balance(token, winners[i]), before[i] + share);
        }
        assert_eq!(chain.balance(token, fee_dest), pool * 200 / 10_000);
        assert!(chain.balance(token, fee_dest) + 5 * share <= pool);
    }
}

#[test]
fn every_way_of_payment_counts() {
    let (mut chain, winners, _) = setup_market_with_winners(5);
    let resolver = chain.contract.get_role(Role::Resolver).unwrap();
    let count = |chain: &Chain| chain.contract.get_settlement_payout_count(1, 0);
    assert_eq!(count(&chain), 0);
    assert_eq!(chain.batch_distribute(1, 1), 1);
    assert_eq!(count(&chain), 1);
    ok(chain.contract.batch_payout(1, vec![winners[0], winners[1], winners[2]], resolver));
    assert_eq!(count(&chain), 3);
    ok(chain.contract.bulk_claim(vec![1], winners[3]));
    assert_eq!(count(&chain), 4);
    ok(chain.contract.claim_original(1, winners[4]));
    assert_eq!(count(&chain), 5);
    ok(chain.contract.bulk_claim(vec![1], winners[4]));
    assert_eq!(count(&chain), 5);
}

#[test]
fn more_winners_than_can_be_counted_are_refused() {
    let (mut chain, winners, _) = setup_market_with_winners(2);
    let resolver = chain.contract.get_role(Role::Resolver).unwrap();
    let mut record = chain.contract.markets.take(1);
    record.winners_paid = u32::MAX - 1;
    assert!(chain.contract.take_in(record));
    let now = chain.now;
    let c = &mut chain.contract;
    assert_eq!(c.batch_distribute(now, 1, 2).err(), Some(Error::Overflow));
    assert_eq!(c.batch_payout(1, winners.clone(), resolver).err(), Some(Error::Overflow));
    assert_eq!(ok(c.batch_distribute(now, 1, 1)).0, 1);
    assert_eq!(c.bulk_claim(vec![1], winners[1]).err(), Some(Error::Overflow));
    assert_eq!(c.claim_original(1, winners[1]).err(), Some(Error::Overflow));
    assert_eq!(c.get_settlement_payout_count(1, 0), u32::MAX);
}

#[test]
fn winners_are_paid_in_the_order_of_their_addresses() {
    let (mut chain, _, creator, token, _) = setup();
    let at = |kind: u32, hi: u128, lo: u128| Address { kind, hi, lo };
    let order = [
        at(0, 0, 5),
        at(0, 0, u128::MAX),
        at(0, 1, 0),
        at(0, u128::MAX, 1),
        at(1, 0, 2),
        at(1, 1 << 100, 3),
        at(2, 0, 0),
    ];
    for i in [4usize, 1, 6, 0, 3, 2, 5] {
        ok(chain.contract.place_bet(0, 1, 0, order[i], 1_000_000));
    }
    chain.propose_resolution(creator, 1, 0);
    chain.now += LIVENESS_WINDOW;
    chain.resolve_market(creator, 1, 0);
    let (paid, effects) = ok(chain.contract.batch_distribute(chain.now, 1, 3));
    assert_eq!(paid, 3);
    for i in 0..3 {
        assert_eq!(effects.transfers[i].to, Party::Account(order[i]));
        assert_eq!(effects.transfers[i].token, token);
    }
    let (_, effects) = ok(chain.contract.batch_distribute(chain.now, 1, 25));
    for i in 0..4 {
        assert_eq!(effects.transfers[i].to, Party::Account(order[i + 3]));
    }
}

#[test]
fn recipients_are_paid_once() {
    let (mut chain, winners, token) = setup_market_with_winners(3);
    let resolver = chain.contract.get_role(Role::Resolver).unwrap();
    let stranger = chain.generate();
    let list = vec![winners[0], winners[0], stranger, winners[1]];
    let (paid, effects) = ok(chain.contract.batch_payout(1, list, resolver));
    assert_eq!(paid, 2);
    assert_eq!(
        effects.transfers,
        vec![Transfer::pay(token, winners[0], SHARE), Transfer::pay(token, winners[1], SHARE)]
    );
    assert_eq!(
        effects.events,
        vec![Event::PayoutClaimed { market_id: 1, recipients: 2, total: 2 * SHARE }]
    );
    chain.perform(effects);
    assert!(chain.contract.is_payout_claimed(1, winners[0]));
    assert!(!chain.contract.is_payout_claimed(1, winners[2]));
    assert!(!chain.contract.is_payout_claimed(1, stranger));
    let list = vec![winners[0], winners[1]];
    let (paid, effects) = ok(chain.contract.batch_payout(1, list, resolver));
    assert_eq!(paid, 0);
    assert!(effects.transfers.is_empty());
}

#[test]
fn refusals_of_payouts() {
    let (mut chain, winners, _) = setup_market_with_winners(3);
    let now = chain.now;
    let resolver = chain.contract.get_role(Role::Resolver).unwrap();
    let c = &mut chain.contract;
    let many = vec![resolver; 51];
    assert_eq!(c.batch_payout(1, many, resolver).err(), Some(Error::TooManyRecipients));
    assert_eq!(c.batch_payout(2, vec![], resolver).err(), Some(Error::MarketNotFound));
    ok(c.acquire_reentrancy_lock());
    assert_eq!(c.acquire_reentrancy_lock(), Err(Error::Reentrancy));
    assert_eq!(c.batch_payout(1, vec![], resolver).err(), Some(Error::Reentrancy));
    assert_eq!(c.batch_distribute(now, 1, 1).err(), Some(Error::Reentrancy));
    assert_eq!(c.claim_original(1, resolver).err(), Some(Error::Reentrancy));
    assert_eq!(ok(c.bulk_claim(vec![1], winners[0])).0, 0);
    c.release_reentrancy_lock();
    ok(c.open_dispute(&chain.env, now, 1, resolver, 1));
    assert_eq!(c.batch_payout(1, vec![], resolver).err(), Some(Error::PayoutsPaused));

    let (mut chain, _, creator, _) = resolved_empty();
    let res = chain.contract.batch_payout(1, vec![creator], creator);
    assert_eq!(res.err(), Some(Error::NoWinners));
}

#[test]
fn claims_from_several_markets() {
    let (mut chain, winners, token) = setup_market_with_winners(3);
    let fee_dest = chain.contract.config.treasury.unwrap();
    let creator = chain.contract.get_role(Role::Resolver).unwrap();
    let deadline = chain.now + 100;
    chain.create_market(creator, 2, deadline, token);
    chain.place_bet(2, 0, winners[0], 1_000_000);
    let before = chain.balance(token, winners[0]);
    let (sum, effects) = ok(chain.contract.bulk_claim(vec![9, 1, 2, 1], winners[0]));
    chain.perform(effects);
    assert_eq!(sum, SHARE);
    assert_eq!(chain.balance(token, winners[0]), before + SHARE);
    assert_eq!(chain.balance(token, fee_dest), FEE);
    let (sum, effects) = ok(chain.contract.bulk_claim(vec![1], winners[0]));
    assert_eq!(sum, 0);
    assert!(effects.transfers.is_empty());
    let (sum, effects) = ok(chain.contract.bulk_claim(vec![1], winners[1]));
    chain.perform(effects);
    assert_eq!(sum, SHARE);
    assert_eq!(chain.balance(token, fee_dest), FEE);
    assert_eq!(chain.batch_distribute(1, 5), 1);
}

#[test]
fn a_bulk_claim_sums_up_the_markets_it_names() {
    let (mut chain, winners, token) = setup_market_with_winners(3);
    let fee_dest = chain.contract.config.treasury.unwrap();
    let creator = chain.contract.get_role(Role::Resolver).unwrap();
    let deadline = chain.now + 100;
    for (id, outcome) in [(2, 0), (3, 1)] {
        chain.create_market(creator, id, deadline, token);
        chain.place_bet(id, outcome, winners[0], 1_000_000);
        chain.place_bet(id, 0, winners[1], 3_000_000);
        chain.propose_resolution(creator, id, 0);
    }
    chain.create_market(creator, 4, deadline, token);
    chain.place_bet(4, 0, winners[0], 1_000_000);
    chain.now += LIVENESS_WINDOW;
    chain.resolve_market(creator, 2, 0);
    chain.resolve_market(creator, 3, 0);

    let pool = chain.contract.get_total_shares(2);
    let quarter = pool * 9_800 / 10_000 / 4;
    let before = chain.balance(token, winners[0]);
    let ids = vec![2, 7, 1, 3, 4, 2, 1];
    let (sum, effects) = ok(chain.contract.bulk_claim(ids.clone(), winners[0]));
    assert_eq!(sum, SHARE + quarter);
    chain.perform(effects);
    assert_eq!(chain.balance(token, winners[0]), before + sum);
    assert_eq!(chain.balance(token, fee_dest), FEE + pool * 200 / 10_000);
    assert_eq!(chain.contract.get_user_position(3, winners[0], 1), 1_000_000);
    assert_eq!(chain.contract.get_user_position(4, winners[0], 0), 1_000_000);

    let (sum, effects) = ok(chain.contract.bulk_claim(ids, winners[0]));
    assert_eq!(sum, 0);
    assert!(effects.transfers.is_empty());
    assert!(effects.events.is_empty());
}

#[test]
fn a_failing_claim_leaves_everything_as_it_was() {
    let (mut chain, winners, token) = setup_market_with_winners(1);
    let creator = chain.contract.get_role(Role::Resolver).unwrap();
    let deadline = chain.now + 100;
    chain.create_market(creator, 2, deadline, token);
    chain.place_bet(2, 0, winners[0], 1_000_000);
    chain.propose_resolution(creator, 2, 0);
    chain.now += LIVENESS_WINDOW;
    chain.resolve_market(creator, 2, 0);
    let (paid, effects) = ok(chain.contract.batch_distribute(chain.now, 1, 1));
    assert_eq!(paid, 1);
    chain.perform(effects);
    chain.contract.config.treasury = None;
    let res = chain.contract.bulk_claim(vec![1, 2], winners[0]);
    assert_eq!(res.err(), Some(Error::TreasuryMissing));
    assert_eq!(chain.contract.get_user_position(2, winners[0], 0), 1_000_000);
}

// The vault

#[test]
fn unclaimed_payouts_go_to_the_vault_and_can_still_be_claimed() {
    let (mut chain, winners, token) = setup_market_with_winners(3);
    let resolver = chain.contract.get_role(Role::Resolver).unwrap();
    let admin = chain.contract.get_role(Role::SuperAdmin).unwrap();
    let due = chain.now + 2_592_000;
    let env = soroban_sdk::Env::default();
    let c = &mut chain.contract;
    assert_eq!(c.invest_vault(admin), Err(Error::VaultEmpty));
    assert_eq!(c.sweep_unclaimed(&env, due - 1, resolver, 1), Err(Error::ClaimPeriodOpen));
    assert_eq!(c.sweep_unclaimed(&env, due, resolver, 2), Err(Error::MarketNotFound));
    assert_eq!(c.claim_original(1, admin).err(), Some(Error::NoPayout));
    assert!(!c.is_market_swept(1));
    assert_eq!(c.sweep_unclaimed(&env, due, resolver, 1), Ok(3 * SHARE));
    assert!(c.is_market_swept(1));
    assert_eq!(c.sweep_unclaimed(&env, due, resolver, 1), Err(Error::AlreadySwept));
    assert_eq!(c.get_vault_balance(), 3 * SHARE);
    assert_eq!(c.invest_vault(admin), Ok(3 * SHARE));
    assert_eq!(c.get_original_payout(1, winners[1]), SHARE);
    assert_eq!(c.get_original_payout(1, admin), 0);

    for w in winners.clone() {
        let (paid, effects) = ok(chain.contract.claim_original(1, w));
        assert_eq!(paid, SHARE);
        assert_eq!(effects.transfers, vec![Transfer::pay(token, w, SHARE)]);
        chain.perform(effects);
        let res = chain.contract.claim_original(1, w);
        assert_eq!(res.err(), Some(Error::AlreadyClaimed));
    }
    assert_eq!(chain.contract.get_vault_balance(), 0);
    let res = chain.contract.claim_original(1, admin);
    assert_eq!(res.err(), Some(Error::NoPayout));
}

/// Market 1 holds a thousand tokens for two winners with one share each.
fn a_thousand_for_two() -> (Chain, Address, Address) {
    let (mut chain, _, _, _) = resolved_empty();
    let (one, two) = (chain.generate(), chain.generate());
    let mut record = chain.contract.markets.take(1);
    record.total_shares = 1_000;
    record.positions[0].set(one, 1);
    record.positions[0].set(two, 1);
    record.outcome_shares.set(0, 2);
    record.pool_balances.set(0, 2);
    assert!(chain.contract.take_in(record));
    (chain, one, two)
}

#[test]
fn a_sweep_takes_what_is_left_to_pay() {
    let (mut chain, one, two) = a_thousand_for_two();
    let resolver = chain.contract.get_role(Role::Resolver).unwrap();
    let (paid, effects) = ok(chain.contract.batch_distribute(chain.now, 1, 1));
    assert_eq!(paid, 1);
    assert_eq!(effects.transfers[0].amount, 490);
    let due = chain.now + 2_592_000;
    assert_eq!(chain.contract.sweep_unclaimed(&chain.env, due, resolver, 1), Ok(490));
    assert_eq!(chain.contract.get_vault_balance(), 490);
    assert_eq!(chain.contract.get_original_payout(1, one), 0);
    assert_eq!(chain.contract.get_original_payout(1, two), 490);
    assert_eq!(ok(chain.contract.claim_original(1, two)).0, 490);
    assert_eq!(chain.contract.get_vault_balance(), 0);

    let (mut chain, winners, _) = setup_market_with_winners(3);
    let resolver = chain.contract.get_role(Role::Resolver).unwrap();
    assert_eq!(chain.batch_distribute(1, 1), 1);
    let due = chain.now + 2_592_000;
    assert_eq!(chain.contract.sweep_unclaimed(&chain.env, due, resolver, 1), Ok(2 * SHARE));
    assert_eq!(chain.contract.get_original_payout(1, winners[2]), SHARE);
}

#[test]
fn original_payouts_can_be_claimed_before_a_sweep() {
    let (mut chain, winners, token) = setup_market_with_winners(3);
    let resolver = chain.contract.get_role(Role::Resolver).unwrap();
    let c = &mut chain.contract;
    c.config.vault_balance = 77;
    let (paid, effects) = ok(c.claim_original(1, winners[1]));
    assert_eq!(paid, SHARE);
    assert_eq!(effects.transfers, vec![Transfer::pay(token, winners[1], SHARE)]);
    assert!(effects.events.is_empty());
    assert_eq!(c.get_vault_balance(), 77);
    assert_eq!(c.get_user_position(1, winners[1], 0), 0);
    assert_eq!(c.get_original_payout(1, winners[1]), 0);

    // Nothing more comes of it, whichever way it is asked for.
    assert_eq!(c.claim_original(1, winners[1]).err(), Some(Error::NoPayout));
    assert_eq!(ok(c.bulk_claim(vec![1], winners[1])).0, 0);
    assert_eq!(ok(c.batch_payout(1, vec![winners[1]], resolver)).0, 0);
    assert_eq!(chain.batch_distribute(1, 5), 2);
    assert_eq!(chain.contract.claim_original(1, winners[0]).err(), Some(Error::NoPayout));
}

#[test]
fn an_original_payout_that_rounds_to_nothing_is_refused() {
    let (mut chain, one, _) = a_thousand_for_two();
    let mut record = chain.contract.markets.take(1);
    record.total_shares = 1;
    assert!(chain.contract.take_in(record));
    assert_eq!(chain.contract.claim_original(1, one).err(), Some(Error::AlreadyClaimed));
}

#[test]
fn a_swept_market_pays_each_winner_one_way() {
    let (mut chain, winners, _) = setup_market_with_winners(4);
    let resolver = chain.contract.get_role(Role::Resolver).unwrap();
    let share = chain.contract.get_total_shares(1) * 9_800 / 10_000 / 4;
    let now = chain.now + 2_592_000;
    let c = &mut chain.contract;
    assert_eq!(c.sweep_unclaimed(&chain.env, now, resolver, 1), Ok(4 * share));

    assert_eq!(ok(c.claim_original(1, winners[0])).0, share);
    assert_eq!(c.get_vault_balance(), 3 * share);
    assert_eq!(ok(c.bulk_claim(vec![1], winners[0])).0, 0);
    assert_eq!(ok(c.batch_payout(1, vec![winners[0]], resolver)).0, 0);

    assert_eq!(ok(c.bulk_claim(vec![1], winners[1])).0, share);
    assert_eq!(c.get_vault_balance(), 2 * share);
    assert_eq!(c.get_original_payout(1, winners[1]), 0);
    assert_eq!(c.claim_original(1, winners[1]).err(), Some(Error::AlreadyClaimed));

    let (paid, effects) = ok(c.batch_distribute(now, 1, 1));
    assert_eq!(paid, 1);
    assert_eq!(effects.transfers[0].to, Party::Account(winners[2]));
    assert_eq!(c.get_vault_balance(), share);
    assert_eq!(c.claim_original(1, winners[2]).err(), Some(Error::AlreadyClaimed));

    assert_eq!(ok(c.claim_original(1, winners[3])).0, share);
    assert_eq!(c.get_vault_balance(), 0);
    assert_eq!(ok(c.batch_distribute(now, 1, 5)).0, 0);
    assert_eq!(c.get_settlement_payout_count(1, 0), 4);
}

#[test]
fn recipients_of_a_swept_market_are_paid_from_the_vault() {
    let (mut chain, winners, _) = setup_market_with_winners(3);
    let resolver = chain.contract.get_role(Role::Resolver).unwrap();
    let due = chain.now + 2_592_000;
    let c = &mut chain.contract;
    ok(c.sweep_unclaimed(&chain.env, due, resolver, 1));
    let list = vec![winners[0], winners[2]];
    assert_eq!(ok(c.batch_payout(1, list, resolver)).0, 2);
    assert_eq!(c.get_vault_balance(), SHARE);
    assert_eq!(c.claim_original(1, winners[2]).err(), Some(Error::AlreadyClaimed));
    assert_eq!(ok(c.claim_original(1, winners[1])).0, SHARE);
}

#[test]
fn successive_payouts_share_one_pool_across_a_sweep() {
    let (mut chain, one, two) = a_thousand_for_two();
    let resolver = chain.contract.get_role(Role::Resolver).unwrap();
    let due = chain.now + 2_592_000;
    let c = &mut chain.contract;
    let (paid, effects) = ok(c.batch_payout(1, vec![one], resolver));
    assert_eq!((paid, effects.transfers[0].amount), (1, 490));
    assert_eq!(c.sweep_unclaimed(&chain.env, due, resolver, 1), Ok(490));
    assert_eq!(c.get_original_payout(1, two), 490);

    let (paid, effects) = ok(c.batch_payout(1, vec![one, two], resolver));
    assert_eq!(paid, 1);
    assert_eq!(effects.transfers.len(), 1);
    assert_eq!(effects.transfers[0].to, Party::Account(two));
    assert_eq!(effects.transfers[0].amount, 490);
    assert_eq!(c.get_vault_balance(), 0);
    assert!(c.is_payout_claimed(1, one) && c.is_payout_claimed(1, two));
    assert_eq!(c.claim_original(1, two).err(), Some(Error::AlreadyClaimed));
    let res = c.batch_payout(1, vec![two], resolver);
    assert_eq!(res.err(), Some(Error::NoWinners));
}

#[test]
fn successive_payouts_pay_equal_shares() {
    let (mut chain, winners, _) = setup_market_with_winners(3);
    let resolver = chain.contract.get_role(Role::Resolver).unwrap();
    for w in winners {
        let (paid, effects) = ok(chain.contract.batch_payout(1, vec![w], resolver));
        assert_eq!((paid, effects.transfers[0].amount), (1, SHARE));
    }
}

#[test]
fn payouts_of_one_market_leave_the_record_of_another() {
    let (mut chain, one, two) = a_thousand_for_two();
    let resolver = chain.contract.get_role(Role::Resolver).unwrap();
    let (other, token) = (chain.generate(), chain.market(1).token);
    let deadline = chain.now + 100;
    chain.create_market(resolver, 2, deadline, token);
    chain.propose_resolution(resolver, 2, 0);
    chain.now += LIVENESS_WINDOW;
    chain.resolve_market(resolver, 2, 0);
    let mut record = chain.contract.markets.take(2);
    record.total_shares = 1_000;
    record.positions[0].set(other, 2);
    record.outcome_shares.set(0, 2);
    record.pool_balances.set(0, 2);
    assert!(chain.contract.take_in(record));

    assert_eq!(ok(chain.contract.batch_distribute(chain.now, 1, 1)).0, 1);
    let due = chain.now + 2_592_000;
    let c = &mut chain.contract;
    assert_eq!(c.get_user_position(1, one, 0), 0);
    assert_eq!(c.sweep_unclaimed(&chain.env, due, resolver, 1), Ok(490));
    assert_eq!(c.sweep_unclaimed(&chain.env, due, resolver, 2), Ok(980));
    assert_eq!(c.get_vault_balance(), 1_470);
    assert_eq!(ok(c.batch_payout(1, vec![two], resolver)).0, 1);
    assert_eq!(c.get_vault_balance(), 980);
    assert_eq!(ok(c.claim_original(2, other)).0, 980);
    assert_eq!(c.get_vault_balance(), 0);
}

#[test]
fn what_is_on_record_fits_the_status() {
    let (mut chain, _, creator, _, _) = setup();
    let gaps = |chain: &Chain| {
        let r = chain.contract.markets.get(1).unwrap();
        (r.claim_deadline, r.unlock_timestamp, r.proposed_outcome_id)
    };
    assert_eq!(gaps(&chain), (None, None, None));
    ok(chain.contract.lock_market(creator, 1));
    assert_eq!(gaps(&chain), (None, None, None));
    chain.now = 7;
    chain.propose_outcome(creator, 1, 1);
    assert_eq!(gaps(&chain), (None, Some(86_407), Some(1)));
    assert_eq!(chain.market(1).proposed_outcome, Some(1));
    chain.now = 86_407;
    chain.settle(1);
    assert_eq!(gaps(&chain), (Some(86_407), Some(86_407), Some(1)));
    let voter = chain.generate();
    ok(chain.contract.open_dispute(&chain.env, chain.now, 1, voter, 1));
    ok(chain.contract.cast_vote(chain.now, 1, voter, true, 1));
    assert_eq!(chain.market(1).status, MarketStatus::ReReview);
    assert_eq!(gaps(&chain), (Some(86_407), Some(86_407), Some(1)));
}

#[test]
fn everyones_entries_are_kept_alive() {
    let (mut chain, winners, _) = setup_market_with_winners(1);
    let resolver = chain.contract.get_role(Role::Resolver).unwrap();
    let loser = Address { lo: 1003, ..winners[0] };
    ok(chain.contract.batch_payout(1, winners.clone(), resolver));
    let due = chain.now + 2_592_000;
    ok(chain.contract.sweep_unclaimed(&chain.env, due, resolver, 1));
    let mut record = chain.contract.markets.take(1);
    record.claimed.set(loser, false);
    record.settlement_fee_paid = true;
    record.proposed_outcome_id = Some(0);
    record.unlock_timestamp = Some(5);
    record.refund_claimed.set(loser, true);
    assert!(chain.contract.take_in(record));
    ok(chain.contract.open_dispute(&chain.env, chain.now, 1, resolver, 1));
    let data = [
        DataKey::Market(1),
        DataKey::OutcomePoolBalances(1),
        DataKey::Dispute(1),
        DataKey::ClaimDeadline(1),
        DataKey::OriginalPayouts(1),
        DataKey::Claimed(1),
        DataKey::SettlementFeePaid(1),
        DataKey::ProposedOutcomeId(1),
        DataKey::UnlockTimestamp(1),
    ];
    let users = [
        DataKey::UserCost(1, loser),
        DataKey::RefundClaimed(1, loser),
        DataKey::UserCost(1, winners[0]),
        DataKey::PayoutClaimed(1, winners[0]),
    ];
    let mut entries: Vec<Entry> = data.map(Entry::Data).to_vec();
    entries.extend([Entry::Position(1, 0), Entry::Position(1, 1)]);
    entries.extend(users.map(Entry::Data));
    assert_eq!(chain.contract.bump_market_ttl(1), Ok(entries));
}

#[test]
fn a_vault_that_was_emptied_refuses() {
    let (mut chain, winners, _) = setup_market_with_winners(2);
    let resolver = chain.contract.get_role(Role::Resolver).unwrap();
    let due = chain.now + 2_592_000;
    ok(chain.contract.sweep_unclaimed(&chain.env, due, resolver, 1));
    chain.contract.config.vault_balance = 1;
    let now = chain.now;
    let c = &mut chain.contract;
    assert_eq!(c.claim_original(1, winners[0]).err(), Some(Error::InsufficientVault));
    assert_eq!(c.bulk_claim(vec![1], winners[0]).err(), Some(Error::InsufficientVault));
    assert_eq!(c.batch_distribute(now, 1, 1).err(), Some(Error::InsufficientVault));
    let res = c.batch_payout(1, winners.clone(), resolver);
    assert_eq!(res.err(), Some(Error::InsufficientVault));
    assert_eq!(c.get_user_position(1, winners[0], 0), 1_000_000);
}

#[test]
fn a_market_without_winners_sweeps_nothing() {
    let (mut chain, _, creator, _) = resolved_empty();
    let due = chain.now + 2_592_000;
    assert_eq!(chain.contract.sweep_unclaimed(&chain.env, due, creator, 1), Ok(0));
    assert_eq!(chain.contract.get_vault_balance(), 0);
    assert!(chain.contract.is_market_swept(1));
}

#[test]
fn winners_on_record_as_paid_are_not_swept() {
    let (mut chain, winners, _) = setup_market_with_winners(3);
    let resolver = chain.contract.get_role(Role::Resolver).unwrap();
    let due = chain.now + 2_592_000;
    let mut record = chain.contract.markets.take(1);
    record.claimed.set(winners[1], true);
    assert!(chain.contract.take_in(record));
    assert_eq!(chain.contract.sweep_unclaimed(&chain.env, due, resolver, 1), Ok(2 * SHARE));
    assert_eq!(chain.contract.get_original_payout(1, winners[1]), SHARE);
}

// Soundness of what is read from the ledger

#[test]
fn unsound_markets_are_not_taken_in() {
    let (mut chain, _, _, token, _) = setup();
    let bettor = chain.generate();
    chain.mint(token, bettor, 100_000_000);
    chain.place_bet(1, 0, bettor, 1_000_000);

    let mut record = chain.contract.markets.take(1);
    record.lmsr_b = 0;
    assert!(!chain.contract.take_in(record));
    assert!(chain.contract.get_market(1).is_err());

    let (mut chain, _, _, token, _) = setup();
    chain.mint(token, bettor, 100_000_000);
    chain.place_bet(1, 0, bettor, 1_000_000);
    let mut record = chain.contract.markets.take(1);
    record.outcome_shares.set(0, 999_999);
    record.pool_balances.set(0, 999_999);
    assert!(!record.is_sound());
    record.outcome_shares.set(0, 1_000_000);
    assert!(!record.is_sound());
    record.pool_balances.set(0, 1_000_000);
    assert!(record.is_sound());
    record.market.winning_outcome = 2;
    assert!(!record.is_sound());
    record.market.winning_outcome = 1;
    record.proposed_outcome_id = Some(2);
    assert!(!record.is_sound());
    record.proposed_outcome_id = None;
    assert!(chain.contract.take_in(record));
    assert_eq!(chain.contract.get_user_position(1, bettor, 0), 1_000_000);
}

#[test]
fn unsound_settings_are_not_restored() {
    let env = soroban_sdk::Env::default();
    let fresh = PredictionMarket::new(&env);
    let parts = || (Flags::new(&env), Counters::new(&env), PauseFlags::new());
    let try_with = |config: Config| {
        let (flags, counters, paused) = parts();
        PredictionMarket::restore(config, flags, counters, paused).is_some()
    };
    assert!(try_with(fresh.config));
    assert!(!try_with(Config { creation_fee: -1, ..fresh.config }));
    assert!(!try_with(Config { min_bet: 0, ..fresh.config }));
    assert!(!try_with(Config { max_bet: 0, ..fresh.config }));
    let split = FeeConfig { treasury_bps: 1, lp_bps: 0, burn_bps: 0 };
    assert!(!try_with(Config { fee_split: split, ..fresh.config }));
}

// Proofs

#[test]
fn proofs_are_compared_modulo_the_order() {
    let (chain, admin, creator, _, _) = setup();
    let modulus = Scalar {
        hi: 0x73eda753299d7d483339d80809a1d805,
        lo: 0x53bda402fffe5bfeffffffff00000001,
    };
    let bytes = |hi: u128, lo: u128| {
        let mut b = [0u8; 32];
        b[0..16].copy_from_slice(&hi.to_be_bytes());
        b[16..32].copy_from_slice(&lo.to_be_bytes());
        b
    };
    let c = &chain.contract;
    let five = bytes(0, 5);
    let five_more = bytes(modulus.hi, modulus.lo + 5);
    let six_more = bytes(modulus.hi, modulus.lo + 6);
    assert_eq!(c.verify_proof(admin, &five, &five_more, modulus), Ok(true));
    assert_eq!(c.verify_proof(admin, &five, &six_more, modulus), Ok(false));
    assert_eq!(c.verify_proof(admin, &five, &five, modulus), Ok(true));
    assert_eq!(
        c.verify_proof(creator, &five, &five, modulus),
        Err(Error::AccessDenied(Role::SuperAdmin))
    );
}
