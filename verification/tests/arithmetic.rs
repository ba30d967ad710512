use prediction_market::calculate_dynamic_fee;
use prediction_market::checked_math::{cadd, cdiv, cmul, cmuldiv, csub, later};
use prediction_market::fees::checked_dynamic_fee;
use prediction_market::holdings::{Balances, Flags, Shares};
use prediction_market::lmsr::{lmsr_cost, lmsr_price};
use prediction_market::math::{normalize_scalar, Scalar};
use prediction_market::{Address, Error};

#[test]
fn checked_operations_refuse_to_overflow() {
    assert_eq!(cadd(2, 3), Ok(5));
    assert_eq!(cadd(i128::MAX, 1), Err(Error::Overflow));
    assert_eq!(csub(2, 3), Ok(-1));
    assert_eq!(csub(i128::MIN, 1), Err(Error::Overflow));
    assert_eq!(cmul(-4, 5), Ok(-20));
    assert_eq!(cmul(i128::MAX, 2), Err(Error::Overflow));
    assert_eq!(cdiv(7, 2), Ok(3));
    assert_eq!(cdiv(-7, 2), Ok(-3));
    assert_eq!(cdiv(7, -2), Ok(-3));
    assert_eq!(cdiv(-7, -2), Ok(3));
    assert_eq!(cdiv(7, 0), Err(Error::Overflow));
    assert_eq!(cdiv(i128::MIN, -1), Err(Error::Overflow));
    assert_eq!(cmuldiv(10, 3, 4), Ok(7));
    assert_eq!(cmuldiv(i128::MAX, 2, 2), Err(Error::Overflow));
    assert_eq!(later(5, 6), Ok(11));
    assert_eq!(later(u64::MAX, 1), Err(Error::Overflow));
}

#[test]
fn the_fee_falls_with_the_volume() {
    assert_eq!(calculate_dynamic_fee(-1), 200);
    assert_eq!(calculate_dynamic_fee(0), 200);
    assert_eq!(calculate_dynamic_fee(1), 200);
    assert_eq!(calculate_dynamic_fee(10_000_000_000), 199);
    assert_eq!(calculate_dynamic_fee(500_000_000_000), 125);
    assert_eq!(calculate_dynamic_fee(1_000_000_000_000), 50);
    assert_eq!(calculate_dynamic_fee(2_000_000_000_000), 50);
    assert_eq!(checked_dynamic_fee(i128::MAX / 150), Ok(50));
    assert_eq!(checked_dynamic_fee(i128::MAX / 150 + 1), Err(Error::Overflow));
}

#[test]
fn costs_of_the_scoring_rule() {
    let b: i128 = 100_000_000;
    assert_eq!(lmsr_cost(&vec![0, 0], b), Ok(69_314_718));
    assert_eq!(lmsr_cost(&vec![10_000_000, 0], b), Ok(74_439_666));
    assert_eq!(lmsr_cost(&vec![0, 10_000_000], b), Ok(74_439_666));
    assert_eq!(lmsr_cost(&vec![0, 0, 0], 1000), Ok(1098));
    assert_eq!(lmsr_cost(&vec![0; 8], b), Ok(207_944_154));
    assert_eq!(lmsr_cost(&vec![28 * b, 0], b), Ok(28 * b));
    assert_eq!(lmsr_cost(&vec![i128::MAX, 0], 1), Ok(i128::MAX));
    assert_eq!(lmsr_cost(&vec![i128::MAX, 0], i128::MAX), Err(Error::Overflow));
}

#[test]
fn catching_up_never_lowers_the_cost() {
    let mut before = 0;
    for trailing in [0, 1, 2, 500_000, 30_000_000, 49_999_999, 50_000_000] {
        let cost = lmsr_cost(&vec![50_000_000, trailing], 100_000_000).unwrap();
        assert!(before <= cost);
        before = cost;
    }
}

#[test]
fn prices_of_the_scoring_rule() {
    let b: i128 = 100_000_000;
    assert_eq!(lmsr_price(&vec![0, 0], b, 0), Ok(5_000_000));
    assert_eq!(lmsr_price(&vec![7, 7, 7], b, 2), Ok(3_333_333));
    assert_eq!(lmsr_price(&vec![50_000_000, 0], b, 0), Ok(6_224_593));
    assert_eq!(lmsr_price(&vec![50_000_000, 0], b, 1), Ok(3_775_406));
    assert_eq!(lmsr_price(&vec![10_000_000_000, 0], b, 0), Ok(10_000_000));
    assert_eq!(lmsr_price(&vec![10_000_000_000, 0], b, 1), Ok(0));
    assert_eq!(lmsr_price(&vec![0, 0], b, 2), Err(Error::InvalidOption));
}

#[test]
fn balances_keep_the_order_of_addresses() {
    let env = soroban_sdk::Env::default();
    let mut balances = Balances::new(&env);
    let at = |kind: u32, hi: u128, lo: u128| Address { kind, hi, lo };
    assert_eq!(balances.entries(), vec![]);
    balances.set(at(1, 0, 0), 5);
    balances.set(at(0, u128::MAX, 3), i128::MIN);
    balances.set(at(0, 2, u128::MAX), i128::MAX);
    balances.set(at(0, 2, 1), 1);
    balances.set(at(1, 0, 0), 6);
    assert_eq!(
        balances.entries(),
        vec![
            (at(0, 2, 1), 1),
            (at(0, 2, u128::MAX), i128::MAX),
            (at(0, u128::MAX, 3), i128::MIN),
            (at(1, 0, 0), 6),
        ]
    );
    assert_eq!(balances.get(at(1, 0, 0)), 6);
    assert_eq!(balances.find(at(1, 0, 1)), None);
    balances.remove(at(0, 2, 1));
    balances.remove(at(0, 2, 1));
    assert_eq!(balances.get(at(0, 2, 1)), 0);
    assert_eq!(balances.entries().len(), 3);
}

#[test]
fn flags_are_there_once_they_are_given() {
    let env = soroban_sdk::Env::default();
    let mut flags = Flags::new(&env);
    let address = Address { kind: 0, hi: 0, lo: 1 };
    assert!(flags.is_empty());
    flags.set(address, false);
    assert!(!flags.is_empty());
    assert!(!flags.get(address));
    flags.set(address, true);
    assert!(flags.get(address));
}

#[test]
fn amounts_are_summed_without_overflow() {
    let env = soroban_sdk::Env::default();
    let mut balances = Balances::new(&env);
    balances.set(Address { kind: 0, hi: 0, lo: 1 }, i128::MAX - 3);
    balances.set(Address { kind: 0, hi: 0, lo: 2 }, 3);
    assert_eq!(balances.sum(), Ok(i128::MAX));
    balances.set(Address { kind: 0, hi: 0, lo: 3 }, 1);
    assert_eq!(balances.sum(), Err(Error::Overflow));
}

#[test]
fn shares_are_a_sequence() {
    let env = soroban_sdk::Env::default();
    let mut shares = Shares::new(&env);
    assert_eq!(shares.len(), 0);
    shares.push(4);
    shares.push(-5);
    shares.set(0, i128::MAX);
    assert_eq!(shares.get(0), Some(i128::MAX));
    assert_eq!(shares.get(1), Some(-5));
    assert_eq!(shares.get(2), None);
    assert_eq!(shares.to_vec(), vec![i128::MAX, -5]);
}

#[test]
fn scalars_are_reduced() {
    let all = [0xffu8; 32];
    let seven = Scalar { hi: 0, lo: 7 };
    assert_eq!(normalize_scalar(&all, seven), Scalar { hi: 0, lo: 1 });
    let most = Scalar { hi: u128::MAX, lo: u128::MAX };
    assert_eq!(normalize_scalar(&all, most), Scalar { hi: 0, lo: 0 });
    let half = Scalar { hi: 1 << 127, lo: 1 };
    assert_eq!(normalize_scalar(&all, half), Scalar { hi: (1 << 127) - 1, lo: u128::MAX - 1 });
}
