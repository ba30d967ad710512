//! Canonical form of proof scalars.
//!
//! Two 32-byte scalars stand for the same element of a group of order `r` when
//! they differ by a multiple of `r`. Reducing both before they are compared
//! keeps a prover from passing `s + k * r` off as something other than `s`.
use vstd::arithmetic::div_mod::{lemma_mod_multiples_vanish, lemma_small_mod};
use vstd::prelude::*;

verus! {

/// Half of the range of a 128-bit word.
pub const WORD_HALF: u128 = 0x8000_0000_0000_0000_0000_0000_0000_0000;

/// An unsigned 256-bit number.
#[derive(Clone, Copy, Debug, PartialEq, Eq, Structural)]
pub struct Scalar {
    pub hi: u128,
    pub lo: u128,
}

/// The range of a 128-bit word.
#[verifier::inline]
pub open spec fn word() -> int {
    0x1_0000_0000_0000_0000_0000_0000_0000_0000int
}

/// The number that big-endian bytes stand for.
pub open spec fn be_value(bytes: Seq<u8>) -> int
    decreases bytes.len(),
{
    if bytes.len() == 0 {
        0
    } else {
        be_value(bytes.drop_last()) * 256 + bytes.last()
    }
}

impl View for Scalar {
    type V = int;

    open spec fn view(&self) -> int {
        self.hi * word() + self.lo
    }
}

impl Scalar {
    /// Whether this number is smaller.
    fn less(self, other: Scalar) -> (res: bool)
        ensures
            res == (self@ < other@),
    {
        proof {
            lemma_order(self, other);
        }
        self.hi < other.hi || (self.hi == other.hi && self.lo < other.lo)
    }
}

/// Numbers compare by their high words, then by their low words.
proof fn lemma_order(a: Scalar, b: Scalar)
    ensures
        a.hi < b.hi ==> a@ < b@,
        a.hi == b.hi ==> (a@ < b@ <==> a.lo < b.lo),
        a@ == b@ ==> a == b,
{
}

/// Reducing before shifting does not change the remainder.
proof fn lemma_shift(base: int, v: int, digit: int, m: int)
    requires
        m > 0,
    ensures
        (base * (v % m) + digit) % m == (base * v + digit) % m,
{
    let k = base * (v / m);
    assert(base * v + digit == m * k + (base * (v % m) + digit)) by (nonlinear_arith)
        requires
            m > 0,
            k == base * (v / m),
    ;
    lemma_mod_multiples_vanish(k, base * (v % m) + digit, m);
}

/// Twice a remainder plus a bit, reduced.
fn double_add(r: Scalar, bit: u8, m: Scalar) -> (res: Scalar)
    requires
        r@ < m@,
        bit <= 1,
    ensures
        res@ == (2 * r@ + bit) % m@,
        res@ < m@,
{
    let carry: bool = r.hi >= WORD_HALF;
    let lo_carry: u128 = if r.lo >= WORD_HALF { 1 } else { 0 };
    let hi: u128 = (if carry { (r.hi - WORD_HALF) * 2 } else { r.hi * 2 }) + lo_carry;
    let lo: u128 = (if r.lo >= WORD_HALF { (r.lo - WORD_HALF) * 2 } else { r.lo * 2 })
        + bit as u128;
    let d = Scalar { hi, lo };
    let ghost whole: int = 2 * r@ + bit;
    assert(whole == (if carry { word() * word() } else { 0 }) + d@) by {
        assert(whole == 2 * r.hi * word() + 2 * r.lo + bit);
    }
    if !carry && d.less(m) {
        proof {
            lemma_small_mod(d@ as nat, m@ as nat);
        }
        return d;
    }
    let borrow: u128 = if d.lo < m.lo { 1 } else { 0 };
    let res = Scalar {
        hi: d.hi.wrapping_sub(m.hi).wrapping_sub(borrow),
        lo: d.lo.wrapping_sub(m.lo),
    };
    proof {
        assert(m@ <= whole < 2 * m@);
        assert(res@ == whole - m@);
        lemma_mod_multiples_vanish(1, res@, m@);
        lemma_small_mod(res@ as nat, m@ as nat);
    }
    res
}

/// Four bits shifted in one by one, each time reduced, are a hexadecimal digit
/// shifted in.
proof fn lemma_digit(r: int, digit: u8, m: int, r1: int, r2: int, r3: int, r4: int)
    requires
        m > 0,
        digit < 16,
        r1 == (2 * r + digit / 8) % m,
        r2 == (2 * r1 + (digit / 4) % 2) % m,
        r3 == (2 * r2 + (digit / 2) % 2) % m,
        r4 == (2 * r3 + digit % 2) % m,
    ensures
        r4 == (16 * r + digit) % m,
{
    let v1 = 2 * r + digit / 8;
    let v2 = 2 * v1 + (digit / 4) % 2;
    let v3 = 2 * v2 + (digit / 2) % 2;
    lemma_shift(2, v1, ((digit / 4) % 2) as int, m);
    lemma_shift(2, v2, ((digit / 2) % 2) as int, m);
    lemma_shift(2, v3, (digit % 2) as int, m);
    assert(2 * v3 + digit % 2 == 16 * r + digit);
}

/// A remainder with one more hexadecimal digit behind it, reduced.
fn add_digit(r: Scalar, digit: u8, m: Scalar) -> (res: Scalar)
    requires
        r@ < m@,
        digit < 16,
    ensures
        res@ == (16 * r@ + digit) % m@,
        res@ < m@,
{
    let r1 = double_add(r, digit / 8, m);
    let r2 = double_add(r1, (digit / 4) % 2, m);
    let r3 = double_add(r2, (digit / 2) % 2, m);
    let r4 = double_add(r3, digit % 2, m);
    proof {
        lemma_digit(r@, digit, m@, r1@, r2@, r3@, r4@);
    }
    r4
}

/// A remainder with one more byte behind it, reduced.
fn add_byte(r: Scalar, byte: u8, m: Scalar) -> (res: Scalar)
    requires
        r@ < m@,
    ensures
        res@ == (256 * r@ + byte) % m@,
        res@ < m@,
{
    let high = add_digit(r, byte / 16, m);
    let res = add_digit(high, byte % 16, m);
    proof {
        let v = 16 * r@ + byte / 16;
        lemma_shift(16, v, (byte % 16) as int, m@);
        assert(16 * v + byte % 16 == 256 * r@ + byte);
    }
    res
}

/// The number that 32 big-endian bytes stand for, reduced modulo `modulus`.
pub fn normalize_scalar(bytes: &[u8; 32], modulus: Scalar) -> (res: Scalar)
    requires
        modulus@ > 0,
    ensures
        res@ == be_value(bytes@) % modulus@,
{
    let mut r = Scalar { hi: 0, lo: 0 };
    let mut i: usize = 0;
    proof {
        lemma_small_mod(0, modulus@ as nat);
        assert(bytes@.take(0) =~= Seq::empty());
    }
    while i < 32
        invariant
            modulus@ > 0,
            i <= 32,
            r@ < modulus@,
            r@ == be_value(bytes@.take(i as int)) % modulus@,
        decreases 32 - i,
    {
        proof {
            let t = bytes@.take(i + 1);
            assert(t.drop_last() =~= bytes@.take(i as int));
            assert(t.last() == bytes@[i as int]);
            lemma_shift(256, be_value(bytes@.take(i as int)), bytes@[i as int] as int, modulus@);
        }
        r = add_byte(r, bytes[i], modulus);
        i = i + 1;
    }
    assert(bytes@.take(32) =~= bytes@);
    r
}

/// Equal scalars stand for numbers that differ by a multiple of the modulus.
pub fn scalars_match(left: &[u8; 32], right: &[u8; 32], modulus: Scalar) -> (res: bool)
    requires
        modulus@ > 0,
    ensures
        res == (be_value(left@) % modulus@ == be_value(right@) % modulus@),
{
    let l = normalize_scalar(left, modulus);
    let r = normalize_scalar(right, modulus);
    proof {
        lemma_order(l, r);
    }
    l == r
}

/// Adding a multiple of the modulus to a number does not change what it
/// stands for.
pub proof fn lemma_multiples_match(s: int, k: int, modulus: int)
    requires
        modulus > 0,
    ensures
        (s + k * modulus) % modulus == s % modulus,
{
    lemma_mod_multiples_vanish(k, s, modulus);
    assert(s + k * modulus == modulus * k + s) by (nonlinear_arith);
}

/// Two to the power of eight times `n`: how many numbers `n` bytes can stand for.
pub open spec fn byte_range(n: nat) -> int
    decreases n,
{
    if n == 0 {
        1
    } else {
        256 * byte_range((n - 1) as nat)
    }
}

/// Bytes stand for a number in base 256, the first byte the highest digit: one
/// byte stands for itself, bytes behind others shift those up, and `n` bytes stand
/// for the numbers under 256 to the power of `n`.
pub proof fn lemma_bytes_are_digits(front: Seq<u8>, back: Seq<u8>, byte: u8)
    ensures
        be_value(seq![byte]) == byte,
        be_value(front + back) == be_value(front) * byte_range(back.len()) + be_value(back),
        0 <= be_value(back) < byte_range(back.len()),
    decreases back.len(),
{
    assert(seq![byte].drop_last() =~= Seq::empty());
    reveal_with_fuel(be_value, 2);
    if back.len() == 0 {
        assert(front + back =~= front);
        assert(be_value(front) * 1 == be_value(front));
    } else {
        let short = back.drop_last();
        lemma_bytes_are_digits(front, short, byte);
        assert((front + back).drop_last() =~= front + short);
        let f = be_value(front);
        let k = byte_range(short.len());
        assert((f * k) * 256 == f * (256 * k)) by (nonlinear_arith);
    }
}

} // verus!
