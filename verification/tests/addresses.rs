use prediction_market::holdings::Balances;
use prediction_market::Address;
use soroban_sdk::xdr::{FromXdr, ToXdr};
use soroban_sdk::{Bytes, Env};

const KEYS: [&str; 6] = [
    "GAAAAAAAAAAAAAAAAAAAAAAAAAAAAAAAAAAAAAAAAAAAAAAAAAAAS4LU",
    "GAAACAQDAQCQMBYIBEFAWDANBYHRAEISCMKBKFQXDAMRUGY4DUPB7JZX",
    "GD7757P47P5PT6HX6327J47S6HYO73XN5TV6V2PI47TOLZHD4LQ6AE5T",
    "CAAAAAAAAAAAAAAAAAAAAAAAAAAAAAAAAAAAAAAAAAAAAAAAAAAATYON",
    "CAAACAQDAQCQMBYIBEFAWDANBYHRAEISCMKBKFQXDAMRUGY4DUPB6N4O",
    "CD7757P47P5PT6HX6327J47S6HYO73XN5TV6V2PI47TOLZHD4LQ6BAYK",
];

fn expected() -> Vec<Address> {
    let mut all = Vec::new();
    for kind in 0..2 {
        all.push(Address { kind, hi: 0, lo: 9 });
        all.push(Address {
            kind,
            hi: 0x000102030405060708090a0b0c0d0e0f,
            lo: 0x101112131415161718191a1b1c1d1e1f,
        });
        all.push(Address {
            kind,
            hi: 0xfffefdfcfbfaf9f8f7f6f5f4f3f2f1f0,
            lo: 0xefeeedecebeae9e8e7e6e5e4e3e2e1e0,
        });
    }
    all
}

fn encoding(env: &Env, key: &str) -> Vec<u8> {
    soroban_sdk::Address::from_str(env, key).to_xdr(env).iter().collect()
}

#[test]
fn addresses_are_read_from_the_ledgers_encoding() {
    let env = Env::default();
    for (key, address) in KEYS.iter().zip(expected()) {
        let bytes = encoding(&env, key);
        assert_eq!(Address::decode(&bytes), Some(address));
        assert_eq!(address.encode(), Some(bytes.clone()));
        let back = soroban_sdk::Address::from_xdr(&env, &Bytes::from_slice(&env, &bytes));
        assert_eq!(back, Ok(soroban_sdk::Address::from_str(&env, key)));
    }
}

#[test]
fn other_bytes_are_not_addresses() {
    let env = Env::default();
    let good = encoding(&env, KEYS[0]);
    assert_eq!(Address::decode(&vec![]), None);
    assert_eq!(Address::decode(&good[0..43].to_vec()), None);
    for i in 0..12 {
        let mut bad = good.clone();
        bad[i] ^= 1;
        assert_eq!(Address::decode(&bad), None);
    }
    let number: Vec<u8> = 5u32.to_xdr(&env).iter().collect();
    assert_eq!(Address::decode(&number), None);
    assert_eq!(Address { kind: 2, hi: 0, lo: 0 }.encode(), None);
}

#[test]
fn balances_list_addresses_as_the_ledger_orders_them() {
    let env = Env::default();
    let mut on_ledger: soroban_sdk::Map<soroban_sdk::Address, i128> = soroban_sdk::Map::new(&env);
    let mut balances = Balances::new(&env);
    for i in [3usize, 1, 5, 0, 4, 2] {
        on_ledger.set(soroban_sdk::Address::from_str(&env, KEYS[i]), i as i128);
        balances.set(expected()[i], i as i128);
    }
    let theirs: Vec<i128> = on_ledger.iter().map(|e| e.1).collect();
    let ours: Vec<i128> = balances.entries().iter().map(|e| e.1).collect();
    assert_eq!(ours, theirs);
}
