//! Amounts, flags and counters per address, held in host collections, and the
//! arithmetic of their totals.
use vstd::prelude::*;

use crate::checked_math::{amount, cadd};
use crate::host;
use crate::host::lists;
use crate::types::{Address, Error};

verus! {

/// An amount per address.
pub struct Balances {
    map: soroban_sdk::Map<(u32, u128, u128), i128>,
}

impl View for Balances {
    type V = Map<Address, i128>;

    closed spec fn view(&self) -> Map<Address, i128> {
        host::amounts_in(self.map)
    }
}

/// The amount of an address; zero where it has none.
pub open spec fn amount_of(amounts: Map<Address, i128>, address: Address) -> i128 {
    if amounts.contains_key(address) {
        amounts[address]
    } else {
        0
    }
}

impl Balances {
    /// No address has an amount.
    pub fn new(env: &soroban_sdk::Env) -> (res: Balances)
        ensures
            res@ == Map::<Address, i128>::empty(),
    {
        Balances { map: host::new_amounts(env) }
    }

    /// The entry of an address, where it has one.
    pub fn find(&self, address: Address) -> (res: Option<i128>)
        ensures
            res == self@.get(address),
    {
        host::get_amount(&self.map, address)
    }

    /// The amount of an address; zero where it has none.
    pub fn get(&self, address: Address) -> (res: i128)
        ensures
            res == amount_of(self@, address),
    {
        match host::get_amount(&self.map, address) {
            Some(v) => v,
            None => 0,
        }
    }

    /// Give an address an amount.
    pub fn set(&mut self, address: Address, value: i128)
        ensures
            final(self)@ == old(self)@.insert(address, value),
    {
        host::set_amount(&mut self.map, address, value);
    }

    /// Take the entry of an address out.
    pub fn remove(&mut self, address: Address)
        ensures
            final(self)@ == old(self)@.remove(address),
    {
        host::remove_amount(&mut self.map, address);
    }

    /// All entries in the ledger's order of the addresses.
    pub fn entries(&self) -> (res: Vec<(Address, i128)>)
        ensures
            res@ == ordered(self@),
            lists(res@, self@),
            self@.dom().finite(),
    {
        let res = host::list_amounts(&self.map);
        proof {
            lemma_ordered(res@, self@);
        }
        res
    }

    /// The sum of all amounts, none of which is negative.
    pub fn sum(&self) -> (res: Result<i128, Error>)
        requires
            forall|a: Address| #[trigger] self@.contains_key(a) ==> self@[a] >= 0,
        ensures
            self@.dom().finite(),
            res == amount(total(self@)),
            res matches Ok(sum) ==> sum >= 0,
    {
        let entries = self.entries();
        let mut sum: i128 = 0;
        let mut i: usize = 0;
        proof {
            lemma_lists_total(entries@, self@);
            lemma_total_nonnegative(self@);
        }
        while i < entries.len()
            invariant
                i <= entries@.len(),
                lists(entries@, self@),
                self@.dom().finite(),
                forall|a: Address| #[trigger] self@.contains_key(a) ==> self@[a] >= 0,
                total(self@) == entries_total(entries@),
                sum == entries_total(entries@.take(i as int)),
            decreases entries@.len() - i,
        {
            proof {
                assert(entries@.take(i + 1).drop_last() =~= entries@.take(i as int));
                assert(self@.contains_key(entries@[i as int].0));
                lemma_entries_prefix(entries@, i + 1);
            }
            sum = cadd(sum, entries[i].1)?;
            i = i + 1;
        }
        assert(entries@.take(entries@.len() as int) =~= entries@);
        Ok(sum)
    }
}

/// The first of a list of entries without negative amounts add up to no more
/// than all of them.
pub proof fn lemma_entries_prefix(entries: Seq<(Address, i128)>, n: int)
    requires
        0 <= n <= entries.len(),
        forall|i: int| 0 <= i < entries.len() ==> (#[trigger] entries[i]).1 >= 0,
    ensures
        0 <= entries_total(entries.take(n)) <= entries_total(entries),
    decreases entries.len(),
{
    if n == entries.len() {
        assert(entries.take(n) =~= entries);
        if entries.len() > 0 {
            lemma_entries_prefix(entries.drop_last(), n - 1);
            assert(entries.drop_last().take(n - 1) =~= entries.drop_last());
        }
    } else {
        lemma_entries_prefix(entries.drop_last(), n);
        assert(entries.drop_last().take(n) =~= entries.take(n));
    }
}

/// A flag per address.
pub struct Flags {
    map: soroban_sdk::Map<(u32, u128, u128), bool>,
}

impl View for Flags {
    type V = Map<Address, bool>;

    closed spec fn view(&self) -> Map<Address, bool> {
        host::flags_in(self.map)
    }
}

/// The flag of an address; unset where it has none.
pub open spec fn flag_of(flags: Map<Address, bool>, address: Address) -> bool {
    flags.contains_key(address) && flags[address]
}

impl Flags {
    /// No address has a flag.
    pub fn new(env: &soroban_sdk::Env) -> (res: Flags)
        ensures
            res@ == Map::<Address, bool>::empty(),
    {
        Flags { map: host::new_flags(env) }
    }

    /// The flag of an address; unset where it has none.
    pub fn get(&self, address: Address) -> (res: bool)
        ensures
            res == flag_of(self@, address),
    {
        match host::get_flag(&self.map, address) {
            Some(v) => v,
            None => false,
        }
    }

    /// Whether no address has a flag.
    pub fn is_empty(&self) -> (res: bool)
        ensures
            res == (self@ == Map::<Address, bool>::empty()),
    {
        host::has_no_flags(&self.map)
    }

    /// Give an address a flag.
    pub fn set(&mut self, address: Address, value: bool)
        ensures
            final(self)@ == old(self)@.insert(address, value),
    {
        host::set_flag(&mut self.map, address, value);
    }
}

/// A counter per address.
pub struct Counters {
    map: soroban_sdk::Map<(u32, u128, u128), u64>,
}

impl View for Counters {
    type V = Map<Address, u64>;

    closed spec fn view(&self) -> Map<Address, u64> {
        host::counters_in(self.map)
    }
}

/// The counter of an address; zero where it has none.
pub open spec fn count_of(counters: Map<Address, u64>, address: Address) -> u64 {
    if counters.contains_key(address) {
        counters[address]
    } else {
        0
    }
}

impl Counters {
    /// No address has a counter.
    pub fn new(env: &soroban_sdk::Env) -> (res: Counters)
        ensures
            res@ == Map::<Address, u64>::empty(),
    {
        Counters { map: host::new_counters(env) }
    }

    /// The counter of an address; zero where it has none.
    pub fn get(&self, address: Address) -> (res: u64)
        ensures
            res == count_of(self@, address),
    {
        match host::get_counter(&self.map, address) {
            Some(v) => v,
            None => 0,
        }
    }

    /// Give an address a counter.
    pub fn set(&mut self, address: Address, value: u64)
        ensures
            final(self)@ == old(self)@.insert(address, value),
    {
        host::set_counter(&mut self.map, address, value);
    }
}

/// An amount per outcome.
pub struct PoolBalances {
    map: soroban_sdk::Map<u32, i128>,
}

impl View for PoolBalances {
    type V = Map<u32, i128>;

    closed spec fn view(&self) -> Map<u32, i128> {
        host::pools_in(self.map)
    }
}

impl PoolBalances {
    /// No outcome has an amount.
    pub fn new(env: &soroban_sdk::Env) -> (res: PoolBalances)
        ensures
            res@ == Map::<u32, i128>::empty(),
    {
        PoolBalances { map: host::new_pools(env) }
    }

    /// The amount of an outcome, where it has one.
    pub fn get(&self, outcome: u32) -> (res: Option<i128>)
        ensures
            res == self@.get(outcome),
    {
        host::get_pool(&self.map, outcome)
    }

    /// Give an outcome an amount.
    pub fn set(&mut self, outcome: u32, value: i128)
        ensures
            final(self)@ == old(self)@.insert(outcome, value),
    {
        host::set_pool(&mut self.map, outcome, value);
    }
}

/// Share quantities, one per outcome.
pub struct Shares {
    vec: soroban_sdk::Vec<i128>,
}

impl View for Shares {
    type V = Seq<i128>;

    closed spec fn view(&self) -> Seq<i128> {
        host::shares_in(self.vec)
    }
}

impl Shares {
    /// No outcomes.
    pub fn new(env: &soroban_sdk::Env) -> (res: Shares)
        ensures
            res@ == Seq::<i128>::empty(),
    {
        Shares { vec: host::new_shares(env) }
    }

    /// Number of outcomes.
    pub fn len(&self) -> (res: u32)
        ensures
            res == self@.len(),
    {
        host::count_shares(&self.vec)
    }

    /// Shares of an outcome, where there is such an outcome.
    pub fn get(&self, index: u32) -> (res: Option<i128>)
        ensures
            res == (if index < self@.len() {
                Some(self@[index as int])
            } else {
                None
            }),
    {
        host::get_share(&self.vec, index)
    }

    /// Replace the shares of an outcome.
    pub fn set(&mut self, index: u32, value: i128)
        requires
            index < old(self)@.len(),
        ensures
            final(self)@ == old(self)@.update(index as int, value),
    {
        host::set_share(&mut self.vec, index, value);
    }

    /// Add an outcome.
    pub fn push(&mut self, value: i128)
        requires
            old(self)@.len() < u32::MAX,
        ensures
            final(self)@ == old(self)@.push(value),
    {
        host::push_share(&mut self.vec, value);
    }

    /// The quantities as a plain vector.
    pub fn to_vec(&self) -> (res: Vec<i128>)
        ensures
            res@ == self@,
    {
        let mut res: Vec<i128> = Vec::new();
        let n: u32 = self.len();
        let mut i: u32 = 0;
        while i < n
            invariant
                n == self@.len(),
                i <= n,
                res@ == self@.take(i as int),
            decreases n - i,
        {
            match self.get(i) {
                Some(v) => res.push(v),
                None => {},
            }
            i = i + 1;
        }
        assert(self@.take(n as int) == self@);
        res
    }
}

/// The entries of a finite map in the ledger's order of the addresses.
pub open spec fn ordered(amounts: Map<Address, i128>) -> Seq<(Address, i128)> {
    choose|entries: Seq<(Address, i128)>| lists(entries, amounts)
}

/// Sum of all amounts.
pub open spec fn total(amounts: Map<Address, i128>) -> int
    decreases amounts.dom().len(),
    when amounts.dom().finite()
{
    if amounts.dom().len() == 0 {
        0
    } else {
        let a = amounts.dom().choose();
        amounts[a] + total(amounts.remove(a))
    }
}

/// Sum of the amounts of a list of entries.
pub open spec fn entries_total(entries: Seq<(Address, i128)>) -> int
    decreases entries.len(),
{
    if entries.len() == 0 {
        0
    } else {
        entries_total(entries.drop_last()) + entries.last().1
    }
}

/// A listing without its last entry lists the map without that address.
pub proof fn lemma_lists_drop_last(entries: Seq<(Address, i128)>, amounts: Map<Address, i128>)
    requires
        lists(entries, amounts),
        entries.len() > 0,
    ensures
        lists(entries.drop_last(), amounts.remove(entries.last().0)),
{
    let e = entries.drop_last();
    let m = amounts.remove(entries.last().0);
    let n = entries.len() as int;
    assert forall|i: int| 0 <= i < e.len() implies m.contains_key((#[trigger] e[i]).0) && m[e[i].0]
        == e[i].1 by {
        assert(e[i] == entries[i]);
        assert(entries[i].0.precedes(entries[n - 1].0));
    }
    assert forall|a: Address| #[trigger] m.contains_key(a) implies exists|i: int|
        0 <= i < e.len() && (#[trigger] e[i]).0 == a by {
        assert(amounts.contains_key(a));
        let i = choose|i: int| 0 <= i < entries.len() && (#[trigger] entries[i]).0 == a;
        assert(e[i] == entries[i]);
    }
    assert forall|i: int, j: int| 0 <= i < j < e.len() implies (#[trigger] e[i]).0.precedes(
        (#[trigger] e[j]).0,
    ) by {
        assert(e[i] == entries[i] && e[j] == entries[j]);
    }
}

/// What a listing lists is finite, has as many entries as the listing, and
/// adds up to the same sum.
pub proof fn lemma_lists_total(entries: Seq<(Address, i128)>, amounts: Map<Address, i128>)
    requires
        lists(entries, amounts),
    ensures
        amounts.dom().finite(),
        amounts.dom().len() == entries.len(),
        total(amounts) == entries_total(entries),
    decreases entries.len(),
{
    if entries.len() == 0 {
        assert(amounts.dom() =~= Set::empty());
    } else {
        let k = entries.last().0;
        assert(entries.last() == entries[entries.len() - 1]);
        lemma_lists_drop_last(entries, amounts);
        lemma_lists_total(entries.drop_last(), amounts.remove(k));
        assert(amounts.dom() =~= amounts.remove(k).dom().insert(k));
        lemma_total_remove(amounts, k);
    }
}

/// There is one listing of a map.
pub proof fn lemma_lists_unique(
    left: Seq<(Address, i128)>,
    right: Seq<(Address, i128)>,
    amounts: Map<Address, i128>,
)
    requires
        lists(left, amounts),
        lists(right, amounts),
    ensures
        left == right,
    decreases left.len(),
{
    lemma_lists_total(left, amounts);
    lemma_lists_total(right, amounts);
    if left.len() == 0 {
        assert(left =~= right);
    } else {
        let n = left.len() as int;
        let a = left[n - 1].0;
        let b = right[n - 1].0;
        assert(amounts.contains_key(a) && amounts.contains_key(b));
        let i = choose|i: int| 0 <= i < right.len() && (#[trigger] right[i]).0 == a;
        let j = choose|j: int| 0 <= j < left.len() && (#[trigger] left[j]).0 == b;
        if i < n - 1 && j < n - 1 {
            assert(right[i].0.precedes(right[n - 1].0));
            assert(left[j].0.precedes(left[n - 1].0));
        }
        assert(a == b);
        lemma_lists_drop_last(left, amounts);
        lemma_lists_drop_last(right, amounts);
        lemma_lists_unique(left.drop_last(), right.drop_last(), amounts.remove(a));
        assert(left =~= left.drop_last().push(left[n - 1]));
        assert(right =~= right.drop_last().push(right[n - 1]));
    }
}

/// A listing is the ordered list of entries.
pub proof fn lemma_ordered(entries: Seq<(Address, i128)>, amounts: Map<Address, i128>)
    requires
        lists(entries, amounts),
    ensures
        ordered(amounts) == entries,
        amounts.dom().finite(),
{
    lemma_lists_unique(entries, ordered(amounts), amounts);
    lemma_lists_total(entries, amounts);
}

/// No amounts add up to nothing.
pub proof fn lemma_total_empty()
    ensures
        total(Map::empty()) == 0,
{
    assert(Map::<Address, i128>::empty().dom() =~= Set::empty());
}

/// Taking an address out takes its amount out of the sum.
pub proof fn lemma_total_remove(amounts: Map<Address, i128>, address: Address)
    requires
        amounts.dom().finite(),
        amounts.contains_key(address),
    ensures
        total(amounts) == amounts[address] + total(amounts.remove(address)),
    decreases amounts.dom().len(),
{
    let a = amounts.dom().choose();
    assert(amounts.dom().len() != 0) by {
        if amounts.dom().len() == 0 {
            amounts.dom().lemma_len0_is_empty();
        }
    }
    if a != address {
        assert(amounts.dom().contains(a));
        lemma_total_remove(amounts.remove(a), address);
        lemma_total_remove(amounts.remove(address), a);
        assert(amounts.remove(a).remove(address) =~= amounts.remove(address).remove(a));
    }
}

/// Giving an address an amount changes the sum by the difference.
pub proof fn lemma_total_insert(amounts: Map<Address, i128>, address: Address, value: i128)
    requires
        amounts.dom().finite(),
    ensures
        amounts.insert(address, value).dom().finite(),
        total(amounts.insert(address, value)) == total(amounts) - amount_of(amounts, address)
            + value,
{
    let m = amounts.insert(address, value);
    lemma_total_remove(m, address);
    if amounts.contains_key(address) {
        lemma_total_remove(amounts, address);
        assert(m.remove(address) =~= amounts.remove(address));
    } else {
        assert(m.remove(address) =~= amounts);
    }
}

/// Amounts that are all zero or more add up to zero or more, and none exceeds
/// the sum.
pub proof fn lemma_total_nonnegative(amounts: Map<Address, i128>)
    requires
        amounts.dom().finite(),
        forall|a: Address| #[trigger] amounts.contains_key(a) ==> amounts[a] >= 0,
    ensures
        total(amounts) >= 0,
        forall|a: Address| #[trigger] amounts.contains_key(a) ==> amounts[a] <= total(amounts),
    decreases amounts.dom().len(),
{
    if amounts.dom().len() != 0 {
        let a = amounts.dom().choose();
        lemma_total_nonnegative(amounts.remove(a));
        assert forall|b: Address| #[trigger] amounts.contains_key(b) implies amounts[b] <= total(
            amounts,
        ) by {
            lemma_total_remove(amounts, b);
            lemma_total_nonnegative(amounts.remove(b));
        }
    }
}

/// The last of some addresses in the ledger's order.
proof fn lemma_last_address(addresses: Set<Address>) -> (last: Address)
    requires
        addresses.finite(),
        addresses.len() > 0,
    ensures
        addresses.contains(last),
        forall|a: Address| #[trigger]
            addresses.contains(a) ==> a == last || a.precedes(last),
    decreases addresses.len(),
{
    let x = addresses.choose();
    let rest = addresses.remove(x);
    if rest.len() == 0 {
        assert forall|a: Address| #[trigger] addresses.contains(a) implies a == x || a.precedes(
            x,
        ) by {
            if a != x {
                assert(rest.contains(a));
                rest.lemma_len0_is_empty();
            }
        }
        x
    } else {
        let y = lemma_last_address(rest);
        let last = if x.precedes(y) {
            y
        } else {
            x
        };
        assert forall|a: Address| #[trigger] addresses.contains(a) implies a == last
            || a.precedes(last) by {
            if a != x {
                assert(rest.contains(a));
            }
        }
        last
    }
}

/// Every finite map has a listing: its ordered list of entries.
pub proof fn lemma_ordered_lists(amounts: Map<Address, i128>)
    requires
        amounts.dom().finite(),
    ensures
        lists(ordered(amounts), amounts),
        ordered(amounts).len() == amounts.dom().len(),
        entries_total(ordered(amounts)) == total(amounts),
    decreases amounts.dom().len(),
{
    if amounts.dom().len() == 0 {
        amounts.dom().lemma_len0_is_empty();
        assert(lists(seq![], amounts));
    } else {
        let a = lemma_last_address(amounts.dom());
        let rest = amounts.remove(a);
        lemma_ordered_lists(rest);
        let front = ordered(rest);
        let entries = front.push((a, amounts[a]));
        let n = front.len() as int;
        assert forall|i: int| 0 <= i < entries.len() implies amounts.contains_key(
            (#[trigger] entries[i]).0,
        ) && amounts[entries[i].0] == entries[i].1 by {
            if i < n {
                assert(entries[i] == front[i]);
                assert(rest.contains_key(front[i].0));
            }
        }
        assert forall|b: Address| #[trigger] amounts.contains_key(b) implies exists|i: int|
            0 <= i < entries.len() && (#[trigger] entries[i]).0 == b by {
            if b == a {
                assert(entries[n].0 == b);
            } else {
                assert(rest.contains_key(b));
                let i = choose|i: int| 0 <= i < front.len() && (#[trigger] front[i]).0 == b;
                assert(entries[i] == front[i]);
            }
        }
        assert forall|i: int, j: int| 0 <= i < j < entries.len() implies (
        #[trigger] entries[i]).0.precedes((#[trigger] entries[j]).0) by {
            assert(entries[i] == front[i]);
            if j < n {
                assert(entries[j] == front[j]);
            } else {
                assert(rest.contains_key(front[i].0));
                assert(amounts.contains_key(front[i].0));
            }
        }
        assert(lists(entries, amounts));
    }
    lemma_lists_total(ordered(amounts), amounts);
}

} // verus!
