//! The ledger's encoding of addresses.
//!
//! An address travels as a tagged value: the tag of address values, the tag of
//! the kind of address (an account's is followed by the tag of its key type),
//! and 32 bytes of payload.
use vstd::prelude::*;

use crate::math::be_value;
use crate::types::Address;

verus! {

/// Kind of the address of an account.
pub const ACCOUNT: u32 = 0;

/// Kind of the address of a contract.
pub const CONTRACT: u32 = 1;

/// The tags in front of the payload.
pub open spec fn tags(kind: u32) -> Seq<u8> {
    if kind == ACCOUNT {
        seq![0u8, 0u8, 0u8, 18u8, 0u8, 0u8, 0u8, 0u8, 0u8, 0u8, 0u8, 0u8]
    } else {
        seq![0u8, 0u8, 0u8, 18u8, 0u8, 0u8, 0u8, 1u8]
    }
}

/// The bytes are the encoding of the address.
pub open spec fn encodes(bytes: Seq<u8>, address: Address) -> bool {
    let n = tags(address.kind).len() as int;
    &&& address.kind == ACCOUNT || address.kind == CONTRACT
    &&& bytes.len() == n + 32
    &&& bytes.take(n) == tags(address.kind)
    &&& address.hi == be_value(bytes.subrange(n, n + 16))
    &&& address.lo == be_value(bytes.subrange(n + 16, n + 32))
}

/// The range of a number of bytes.
spec fn range(n: nat) -> int
    decreases n,
{
    if n == 0 {
        1
    } else {
        range((n - 1) as nat) * 256
    }
}

/// What bytes stand for fits in their range.
proof fn lemma_be_range(bytes: Seq<u8>)
    ensures
        0 <= be_value(bytes) < range(bytes.len()),
    decreases bytes.len(),
{
    if bytes.len() > 0 {
        lemma_be_range(bytes.drop_last());
    }
}

/// Different bytes of one length stand for different numbers.
proof fn lemma_be_unique(left: Seq<u8>, right: Seq<u8>)
    requires
        left.len() == right.len(),
        be_value(left) == be_value(right),
    ensures
        left == right,
    decreases left.len(),
{
    if left.len() > 0 {
        assert(left.last() == right.last());
        lemma_be_unique(left.drop_last(), right.drop_last());
        assert(left =~= left.drop_last().push(left.last()));
        assert(right =~= right.drop_last().push(right.last()));
    } else {
        assert(left =~= right);
    }
}

/// An address has one encoding, and an encoding stands for one address.
pub proof fn lemma_encoding_is_unique(
    left: Seq<u8>,
    right: Seq<u8>,
    one: Address,
    other: Address,
)
    requires
        encodes(left, one),
        encodes(right, other),
    ensures
        left == right <==> one == other,
{
    let n = tags(one.kind).len() as int;
    if one == other {
        lemma_be_unique(left.subrange(n, n + 16), right.subrange(n, n + 16));
        lemma_be_unique(left.subrange(n + 16, n + 32), right.subrange(n + 16, n + 32));
        assert forall|i: int| 0 <= i < left.len() implies left[i] == right[i] by {
            if i < n {
                assert(left.take(n)[i] == right.take(n)[i]);
            } else if i < n + 16 {
                assert(left.subrange(n, n + 16)[i - n] == right.subrange(n, n + 16)[i - n]);
            } else {
                assert(left.subrange(n + 16, n + 32)[i - n - 16] == right.subrange(
                    n + 16,
                    n + 32,
                )[i - n - 16]);
            }
        }
        assert(left =~= right);
    }
}

/// The number that 16 bytes from a position on stand for.
fn read_word(bytes: &Vec<u8>, start: usize) -> (res: u128)
    requires
        start + 16 <= bytes@.len(),
    ensures
        res == be_value(bytes@.subrange(start as int, start + 16)),
{
    let n: usize = bytes.len();
    let mut res: u128 = 0;
    let mut i: usize = 0;
    assert(bytes@.subrange(start as int, start as int) =~= Seq::empty());
    proof {
        reveal_with_fuel(range, 17);
    }
    while i < 16
        invariant
            i <= 16,
            n == bytes@.len(),
            start + 16 <= n,
            range(16) == 0x1_0000_0000_0000_0000_0000_0000_0000_0000int,
            res == be_value(bytes@.subrange(start as int, start + i)),
        decreases 16 - i,
    {
        proof {
            let next = bytes@.subrange(start as int, start + i + 1);
            assert(next.drop_last() =~= bytes@.subrange(start as int, start + i));
            assert(next.last() == bytes@[start + i]);
            lemma_be_range(next);
            lemma_range_grows((i + 1) as nat, 16);
        }
        res = res * 256 + bytes[start + i] as u128;
        i = i + 1;
    }
    res
}

/// More bytes have a larger range.
proof fn lemma_range_grows(n: nat, m: nat)
    requires
        n <= m,
    ensures
        0 < range(n) <= range(m),
    decreases m,
{
    if n < m {
        lemma_range_grows(n, (m - 1) as nat);
    } else if n > 0 {
        lemma_range_grows((n - 1) as nat, (n - 1) as nat);
    }
}

/// The byte of a number that has `k` bytes after it.
fn byte_at(value: u128, k: usize) -> (res: u8)
    requires
        k < 16,
    ensures
        res == (value as int / range(k as nat)) % 256,
{
    let mut rest: u128 = value;
    let mut i: usize = 0;
    while i < k
        invariant
            i <= k,
            rest == value as int / range(i as nat),
        decreases k - i,
    {
        proof {
            lemma_range_grows(i as nat, i as nat);
            vstd::arithmetic::div_mod::lemma_div_denominator(
                value as int,
                range(i as nat),
                256,
            );
        }
        rest = rest / 256;
        i = i + 1;
    }
    (rest % 256) as u8
}

/// Append the 16 bytes of a number.
fn write_word(bytes: &mut Vec<u8>, value: u128)
    ensures
        final(bytes)@.len() == old(bytes)@.len() + 16,
        final(bytes)@.take(old(bytes)@.len() as int) == old(bytes)@,
        be_value(
            final(bytes)@.subrange(old(bytes)@.len() as int, final(bytes)@.len() as int),
        ) == value,
{
    let ghost before = bytes@;
    let ghost n = bytes@.len() as int;
    let mut i: usize = 0;
    proof {
        reveal_with_fuel(range, 17);
        assert(range(16) == 0x1_0000_0000_0000_0000_0000_0000_0000_0000int);
        assert(value as int / range(16) == 0);
        assert(bytes@.subrange(n, n) =~= Seq::empty());
    }
    while i < 16
        invariant
            i <= 16,
            n == before.len(),
            bytes@.len() == n + i,
            bytes@.take(n) =~= before,
            be_value(bytes@.subrange(n, n + i)) == value as int / range((16 - i) as nat),
        decreases 16 - i,
    {
        let ghost now = bytes@;
        bytes.push(byte_at(value, 15 - i));
        proof {
            let next = bytes@.subrange(n, n + i + 1);
            assert(next.drop_last() =~= now.subrange(n, n + i));
            let r = range((15 - i) as nat);
            lemma_range_grows((15 - i) as nat, (15 - i) as nat);
            assert(range((16 - i) as nat) == r * 256);
            vstd::arithmetic::div_mod::lemma_div_denominator(value as int, r, 256);
            assert(value as int / r == (value as int / r) / 256 * 256 + (value as int / r) % 256);
        }
        i = i + 1;
    }
    proof {
        assert(range(0) == 1);
        assert(value as int / 1 == value);
        assert(bytes@.subrange(n, n + 16) =~= bytes@.subrange(n, bytes@.len() as int));
    }
}

impl Address {
    /// Read an address from its encoding; `None` where the bytes are not one.
    pub fn decode(bytes: &Vec<u8>) -> (res: Option<Address>)
        ensures
            match res {
                Some(address) => encodes(bytes@, address),
                None => forall|address: Address| !encodes(bytes@, address),
            },
    {
        let n: usize = bytes.len();
        if n != 40 && n != 44 {
            return None;
        }
        let start: usize = n - 32;
        let kind: u32 = if n == 44 {
            ACCOUNT
        } else {
            CONTRACT
        };
        let mut i: usize = 0;
        while i < start
            invariant
                i <= start,
                start == n - 32,
                n == bytes@.len(),
                n == 40 || n == 44,
                kind == if n == 44 {
                    ACCOUNT
                } else {
                    CONTRACT
                },
                forall|j: int| 0 <= j < i ==> #[trigger] bytes@[j] == tags(kind)[j],
            decreases start - i,
        {
            let tag: u8 = if i == 3 {
                18
            } else if i == 7 && kind == CONTRACT {
                1
            } else {
                0
            };
            assert(tag == tags(kind)[i as int]);
            if bytes[i] != tag {
                assert forall|address: Address| !encodes(bytes@, address) by {
                    if encodes(bytes@, address) {
                        assert(bytes@.take(start as int)[i as int] == tags(address.kind)[i as int]);
                    }
                }
                return None;
            }
            i = i + 1;
        }
        assert(bytes@.take(start as int) =~= tags(kind));
        Some(Address { kind, hi: read_word(bytes, start), lo: read_word(bytes, start + 16) })
    }

    /// The encoding of an address of an account or a contract; `None` for any
    /// other kind.
    pub fn encode(self) -> (res: Option<Vec<u8>>)
        ensures
            match res {
                Some(bytes) => encodes(bytes@, self),
                None => self.kind != ACCOUNT && self.kind != CONTRACT,
            },
    {
        let mut bytes: Vec<u8> = if self.kind == ACCOUNT {
            vec![0, 0, 0, 18, 0, 0, 0, 0, 0, 0, 0, 0]
        } else if self.kind == CONTRACT {
            vec![0, 0, 0, 18, 0, 0, 0, 1]
        } else {
            return None;
        };
        assert(bytes@ =~= tags(self.kind));
        let ghost n = bytes@.len() as int;
        write_word(&mut bytes, self.hi);
        let ghost half = bytes@;
        write_word(&mut bytes, self.lo);
        proof {
            assert(bytes@.take(n) =~= half.take(n));
            assert(bytes@.subrange(n, n + 16) =~= half.subrange(n, n + 16)) by {
                assert forall|i: int| n <= i < n + 16 implies bytes@[i] == half[i] by {
                    assert(bytes@.take(n + 16)[i] == half[i]);
                }
            }
            assert forall|i: int| 0 <= i < n implies bytes@[i] == half[i] by {
                assert(bytes@.take(n + 16)[i] == half[i]);
            }
        }
        Some(bytes)
    }
}

} // verus!
