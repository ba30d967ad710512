//! Arithmetic on token amounts that refuses to overflow.
use vstd::prelude::*;

use crate::types::Error;

verus! {

/// The value fits in a token amount.
pub open spec fn fits(x: int) -> bool {
    i128::MIN <= x <= i128::MAX
}

/// Quotient rounded toward zero.
pub open spec fn quotient(a: int, b: int) -> int {
    if a >= 0 {
        if b > 0 {
            a / b
        } else {
            -(a / (-b))
        }
    } else {
        if b > 0 {
            -((-a) / b)
        } else {
            (-a) / (-b)
        }
    }
}

/// An amount, or `Overflow` where no amount can hold it.
pub open spec fn amount(x: int) -> Result<i128, Error> {
    if fits(x) {
        Ok(x as i128)
    } else {
        Err(Error::Overflow)
    }
}

/// `a * b / c` rounded toward zero, or `Overflow` where the product or the
/// quotient does not fit or `c` is zero.
pub open spec fn scaled(a: int, b: int, c: int) -> Result<i128, Error> {
    if !fits(a * b) || c == 0 {
        Err(Error::Overflow)
    } else {
        amount(quotient(a * b, c))
    }
}

/// A point in time, or `Overflow` where the clock cannot show it.
pub open spec fn moment(t: int) -> Result<u64, Error> {
    if 0 <= t <= u64::MAX {
        Ok(t as u64)
    } else {
        Err(Error::Overflow)
    }
}

/// The time that lies a number of seconds after another.
pub fn later(time: u64, seconds: u64) -> (res: Result<u64, Error>)
    ensures
        res == moment(time + seconds),
{
    match time.checked_add(seconds) {
        Some(t) => Ok(t),
        None => Err(Error::Overflow),
    }
}

/// Checked addition.
pub fn cadd(a: i128, b: i128) -> (res: Result<i128, Error>)
    ensures
        res == amount(a + b),
{
    match a.checked_add(b) {
        Some(v) => Ok(v),
        None => Err(Error::Overflow),
    }
}

/// Checked subtraction.
pub fn csub(a: i128, b: i128) -> (res: Result<i128, Error>)
    ensures
        res == amount(a - b),
{
    match a.checked_sub(b) {
        Some(v) => Ok(v),
        None => Err(Error::Overflow),
    }
}

/// Checked multiplication.
pub fn cmul(a: i128, b: i128) -> (res: Result<i128, Error>)
    ensures
        res == amount(a * b),
{
    match a.checked_mul(b) {
        Some(v) => Ok(v),
        None => Err(Error::Overflow),
    }
}

/// Checked division, rounded toward zero.
pub fn cdiv(a: i128, b: i128) -> (res: Result<i128, Error>)
    ensures
        res == (if b == 0 {
            Err(Error::Overflow)
        } else {
            amount(quotient(a as int, b as int))
        }),
{
    if b == 0 || (a == i128::MIN && b == -1) {
        return Err(Error::Overflow);
    }
    proof {
        lemma_quotient_fits(a as int, b as int);
    }
    let q: i128 = a / b;
    proof {
        let x: int = if a >= 0 { a as int } else { -a };
        let y: int = b as int;
        assert(y < 0 ==> x / y == -(x / (-y))) by (nonlinear_arith)
            requires
                x >= 0,
        ;
    }
    Ok(q)
}

/// Checked multiplication followed by checked division.
pub fn cmuldiv(a: i128, b: i128, c: i128) -> (res: Result<i128, Error>)
    ensures
        res == scaled(a as int, b as int, c as int),
{
    match cmul(a, b) {
        Err(e) => Err(e),
        Ok(product) => cdiv(product, c),
    }
}

/// A quotient is no larger in size than the number divided.
pub proof fn lemma_quotient_fits(a: int, b: int)
    requires
        fits(a),
        b != 0,
    ensures
        quotient(a, b) != i128::MAX + 1 ==> fits(quotient(a, b)),
        quotient(a, b) == i128::MAX + 1 ==> a == i128::MIN && b == -1,
        b > 0 ==> fits(quotient(a, b)),
        a >= 0 && b > 0 ==> 0 <= quotient(a, b) <= a,
{
    let x = if a >= 0 { a } else { -a };
    let y = if b > 0 { b } else { -b };
    assert(0 <= x / y <= x) by (nonlinear_arith)
        requires
            x >= 0,
            y >= 1,
    ;
    assert(y >= 2 ==> 2 * (x / y) <= x) by (nonlinear_arith)
        requires
            x >= 0,
            y >= 1,
    ;
}

} // verus!
