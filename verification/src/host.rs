//! The ledger host's collections.
//!
//! Nothing here is proved: each function makes one call of `soroban_sdk`, and
//! its contract says what that call does to the contents of the collection.
//! A host collection is an immutable object behind a handle; a method that
//! takes `&mut self` stores the handle of a changed copy. Exhausting the
//! host's metering budget or memory ends the transaction and is not spoken of.
use vstd::prelude::*;

use crate::types::Address;

verus! {

/// `soroban_sdk::Env`, the handle through which host collections are made.
#[verifier::external_type_specification]
#[verifier::external_body]
pub struct ExEnv(soroban_sdk::Env);

/// `soroban_sdk::Map`, an ordered dictionary with at most one entry per key.
#[verifier::external_type_specification]
#[verifier::external_body]
#[verifier::reject_recursive_types(K)]
#[verifier::reject_recursive_types(V)]
pub struct ExMap<K, V>(soroban_sdk::Map<K, V>);

/// `soroban_sdk::Vec`, a sequence of values.
#[verifier::external_type_specification]
#[verifier::external_body]
#[verifier::reject_recursive_types(T)]
pub struct ExVec<T>(soroban_sdk::Vec<T>);

/// The amounts that a host map holds per address.
pub uninterp spec fn amounts_in(
    map: soroban_sdk::Map<(u32, u128, u128), i128>,
) -> Map<Address, i128>;

/// The flags that a host map holds per address.
pub uninterp spec fn flags_in(
    map: soroban_sdk::Map<(u32, u128, u128), bool>,
) -> Map<Address, bool>;

/// The counters that a host map holds per address.
pub uninterp spec fn counters_in(
    map: soroban_sdk::Map<(u32, u128, u128), u64>,
) -> Map<Address, u64>;

/// The amounts that a host map holds per outcome.
pub uninterp spec fn pools_in(map: soroban_sdk::Map<u32, i128>) -> Map<u32, i128>;

/// The amounts that a host vector holds.
pub uninterp spec fn shares_in(vec: soroban_sdk::Vec<i128>) -> Seq<i128>;

/// The entries of a map, each once, in the ledger's order of the addresses.
pub open spec fn lists(entries: Seq<(Address, i128)>, amounts: Map<Address, i128>) -> bool {
    &&& forall|i: int|
        0 <= i < entries.len() ==> amounts.contains_key((#[trigger] entries[i]).0)
            && amounts[entries[i].0] == entries[i].1
    &&& forall|a: Address| #[trigger]
        amounts.contains_key(a) ==> exists|i: int|
            0 <= i < entries.len() && (#[trigger] entries[i]).0 == a
    &&& forall|i: int, j: int|
        0 <= i < j < entries.len() ==> (#[trigger] entries[i]).0.precedes(
            (#[trigger] entries[j]).0,
        )
}

/// No address has an amount.
pub open spec fn no_amounts() -> Map<Address, i128> {
    Map::empty()
}

/// No address has a flag.
pub open spec fn no_flags() -> Map<Address, bool> {
    Map::empty()
}

/// No address has a counter.
pub open spec fn no_counters() -> Map<Address, u64> {
    Map::empty()
}

/// No outcome has an amount.
pub open spec fn no_pools() -> Map<u32, i128> {
    Map::empty()
}

/// `soroban_sdk::Map::new` makes a map without entries.
#[verifier::external_body]
pub(crate) fn new_amounts(env: &soroban_sdk::Env) -> (res: soroban_sdk::Map<
    (u32, u128, u128),
    i128,
>)
    ensures
        amounts_in(res) == no_amounts(),
{
    soroban_sdk::Map::new(env)
}

/// `soroban_sdk::Map::get` returns the value of the key, or `None` where the
/// map has no such key.
#[verifier::external_body]
pub(crate) fn get_amount(
    map: &soroban_sdk::Map<(u32, u128, u128), i128>,
    key: Address,
) -> (res: Option<i128>)
    ensures
        res == amounts_in(*map).get(key),
{
    map.get((key.kind, key.hi, key.lo))
}

/// `soroban_sdk::Map::set` gives the key its value, replacing one it had.
#[verifier::external_body]
pub(crate) fn set_amount(
    map: &mut soroban_sdk::Map<(u32, u128, u128), i128>,
    key: Address,
    value: i128,
)
    ensures
        amounts_in(*final(map)) == amounts_in(*old(map)).insert(key, value),
{
    map.set((key.kind, key.hi, key.lo), value);
}

/// `soroban_sdk::Map::remove` takes the key out, where the map has it.
#[verifier::external_body]
pub(crate) fn remove_amount(map: &mut soroban_sdk::Map<(u32, u128, u128), i128>, key: Address)
    ensures
        amounts_in(*final(map)) == amounts_in(*old(map)).remove(key),
{
    map.remove((key.kind, key.hi, key.lo));
}

/// `soroban_sdk::Map::iter` yields every entry once, in the order of the keys.
/// Keys of this kind are compared part by part, as numbers.
#[verifier::external_body]
pub(crate) fn list_amounts(map: &soroban_sdk::Map<(u32, u128, u128), i128>) -> (res: Vec<
    (Address, i128),
>)
    ensures
        lists(res@, amounts_in(*map)),
{
    map.iter().map(|e| (Address { kind: e.0.0, hi: e.0.1, lo: e.0.2 }, e.1)).collect()
}

/// `soroban_sdk::Map::new` makes a map without entries.
#[verifier::external_body]
pub(crate) fn new_flags(env: &soroban_sdk::Env) -> (res: soroban_sdk::Map<
    (u32, u128, u128),
    bool,
>)
    ensures
        flags_in(res) == no_flags(),
{
    soroban_sdk::Map::new(env)
}

/// `soroban_sdk::Map::get` returns the value of the key, or `None` where the
/// map has no such key.
#[verifier::external_body]
pub(crate) fn get_flag(
    map: &soroban_sdk::Map<(u32, u128, u128), bool>,
    key: Address,
) -> (res: Option<bool>)
    ensures
        res == flags_in(*map).get(key),
{
    map.get((key.kind, key.hi, key.lo))
}

/// `soroban_sdk::Map::set` gives the key its value, replacing one it had.
#[verifier::external_body]
pub(crate) fn set_flag(
    map: &mut soroban_sdk::Map<(u32, u128, u128), bool>,
    key: Address,
    value: bool,
)
    ensures
        flags_in(*final(map)) == flags_in(*old(map)).insert(key, value),
{
    map.set((key.kind, key.hi, key.lo), value);
}

/// `soroban_sdk::Map::is_empty` says whether the map has no entries.
#[verifier::external_body]
pub(crate) fn has_no_flags(map: &soroban_sdk::Map<(u32, u128, u128), bool>) -> (res: bool)
    ensures
        res == (flags_in(*map) == no_flags()),
{
    map.is_empty()
}

/// `soroban_sdk::Map::new` makes a map without entries.
#[verifier::external_body]
pub(crate) fn new_counters(env: &soroban_sdk::Env) -> (res: soroban_sdk::Map<
    (u32, u128, u128),
    u64,
>)
    ensures
        counters_in(res) == no_counters(),
{
    soroban_sdk::Map::new(env)
}

/// `soroban_sdk::Map::get` returns the value of the key, or `None` where the
/// map has no such key.
#[verifier::external_body]
pub(crate) fn get_counter(
    map: &soroban_sdk::Map<(u32, u128, u128), u64>,
    key: Address,
) -> (res: Option<u64>)
    ensures
        res == counters_in(*map).get(key),
{
    map.get((key.kind, key.hi, key.lo))
}

/// `soroban_sdk::Map::set` gives the key its value, replacing one it had.
#[verifier::external_body]
pub(crate) fn set_counter(
    map: &mut soroban_sdk::Map<(u32, u128, u128), u64>,
    key: Address,
    value: u64,
)
    ensures
        counters_in(*final(map)) == counters_in(*old(map)).insert(key, value),
{
    map.set((key.kind, key.hi, key.lo), value);
}

/// `soroban_sdk::Map::new` makes a map without entries.
#[verifier::external_body]
pub(crate) fn new_pools(env: &soroban_sdk::Env) -> (res: soroban_sdk::Map<u32, i128>)
    ensures
        pools_in(res) == no_pools(),
{
    soroban_sdk::Map::new(env)
}

/// `soroban_sdk::Map::get` returns the value of the key, or `None` where the
/// map has no such key.
#[verifier::external_body]
pub(crate) fn get_pool(map: &soroban_sdk::Map<u32, i128>, key: u32) -> (res: Option<i128>)
    ensures
        res == pools_in(*map).get(key),
{
    map.get(key)
}

/// `soroban_sdk::Map::set` gives the key its value, replacing one it had.
#[verifier::external_body]
pub(crate) fn set_pool(map: &mut soroban_sdk::Map<u32, i128>, key: u32, value: i128)
    ensures
        pools_in(*final(map)) == pools_in(*old(map)).insert(key, value),
{
    map.set(key, value);
}

/// `soroban_sdk::Vec::new` makes an empty vector.
#[verifier::external_body]
pub(crate) fn new_shares(env: &soroban_sdk::Env) -> (res: soroban_sdk::Vec<i128>)
    ensures
        shares_in(res).len() == 0,
{
    soroban_sdk::Vec::new(env)
}

/// `soroban_sdk::Vec::len` returns the number of items.
#[verifier::external_body]
pub(crate) fn count_shares(vec: &soroban_sdk::Vec<i128>) -> (res: u32)
    ensures
        res == shares_in(*vec).len(),
{
    vec.len()
}

/// `soroban_sdk::Vec::get` returns the item at the position, or `None` where
/// there is no such position.
#[verifier::external_body]
pub(crate) fn get_share(vec: &soroban_sdk::Vec<i128>, index: u32) -> (res: Option<i128>)
    ensures
        res == (if index < shares_in(*vec).len() {
            Some(shares_in(*vec)[index as int])
        } else {
            None
        }),
{
    vec.get(index)
}

/// `soroban_sdk::Vec::set` replaces the item at the position, which has to
/// exist.
#[verifier::external_body]
pub(crate) fn set_share(vec: &mut soroban_sdk::Vec<i128>, index: u32, value: i128)
    requires
        index < shares_in(*old(vec)).len(),
    ensures
        shares_in(*final(vec)) == shares_in(*old(vec)).update(index as int, value),
{
    vec.set(index, value);
}

/// `soroban_sdk::Vec::push_back` adds the item behind the last.
#[verifier::external_body]
pub(crate) fn push_share(vec: &mut soroban_sdk::Vec<i128>, value: i128)
    requires
        shares_in(*old(vec)).len() < u32::MAX,
    ensures
        shares_in(*final(vec)) == shares_in(*old(vec)).push(value),
{
    vec.push_back(value);
}

} // verus!
