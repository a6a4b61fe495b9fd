//! Arithmetic on token amounts.
//!
//! Amounts are `u128` values. The checked and saturating operations are
//! those of `cosmwasm_std::Uint128`, so that an amount computed here is the
//! amount that the chain's own number type computes. Each is reached through
//! one wrapper whose contract restates, over plain integers, what the method
//! does; these contracts are taken on trust.

use vstd::prelude::*;
use cosmwasm_std::Uint128;

verus! {

/// The error of `Uint128`'s checked addition, subtraction and
/// multiplication. Nothing is read from it here.
#[verifier::external_type_specification]
#[verifier::external_body]
pub struct ExOverflowError(cosmwasm_std::OverflowError);

/// The error of `Uint128`'s checked division. Nothing is read from it here.
#[verifier::external_type_specification]
#[verifier::external_body]
pub struct ExDivideByZeroError(cosmwasm_std::DivideByZeroError);

/// Why an amount could not be computed.
#[derive(Clone, Copy, Debug, PartialEq, Eq, Structural)]
pub enum AmountError {
    /// The exact result does not fit into 128 bits, or is negative.
    Overflow,
    /// The divisor is zero.
    DivideByZero,
}

/// The largest amount.
pub open spec fn max_amount() -> int {
    u128::MAX as int
}

/// `x` cut off at the largest amount.
pub open spec fn saturate(x: int) -> int {
    if x > max_amount() {
        max_amount()
    } else if x < 0 {
        0
    } else {
        x
    }
}

/// `Uint128::checked_add`: the sum where it fits into 128 bits, else the
/// crate's overflow error.
#[verifier::external_body]
fn uint128_checked_add(a: u128, b: u128) -> (r: Result<u128, cosmwasm_std::OverflowError>)
    ensures
        r is Ok <==> a + b <= max_amount(),
        r matches Ok(sum) ==> sum == a + b,
{
    match Uint128::new(a).checked_add(Uint128::new(b)) {
        Ok(sum) => Ok(sum.u128()),
        Err(error) => Err(error),
    }
}

/// `Uint128::checked_sub`: the difference where it is not negative, else the
/// crate's overflow error.
#[verifier::external_body]
fn uint128_checked_sub(a: u128, b: u128) -> (r: Result<u128, cosmwasm_std::OverflowError>)
    ensures
        r is Ok <==> a >= b,
        r matches Ok(difference) ==> difference == a - b,
{
    match Uint128::new(a).checked_sub(Uint128::new(b)) {
        Ok(difference) => Ok(difference.u128()),
        Err(error) => Err(error),
    }
}

/// `Uint128::checked_mul`: the product where it fits into 128 bits, else the
/// crate's overflow error.
#[verifier::external_body]
fn uint128_checked_mul(a: u128, b: u128) -> (r: Result<u128, cosmwasm_std::OverflowError>)
    ensures
        r is Ok <==> a * b <= max_amount(),
        r matches Ok(product) ==> product == a * b,
{
    match Uint128::new(a).checked_mul(Uint128::new(b)) {
        Ok(product) => Ok(product.u128()),
        Err(error) => Err(error),
    }
}

/// `Uint128::checked_div`: the quotient rounded down where the divisor is
/// not zero, else the crate's division error.
#[verifier::external_body]
fn uint128_checked_div(a: u128, b: u128) -> (r: Result<u128, cosmwasm_std::DivideByZeroError>)
    ensures
        r is Ok <==> b != 0,
        r matches Ok(quotient) ==> quotient == a / b,
{
    match Uint128::new(a).checked_div(Uint128::new(b)) {
        Ok(quotient) => Ok(quotient.u128()),
        Err(error) => Err(error),
    }
}

/// `Uint128::saturating_add`: the sum, or the largest amount where the sum
/// does not fit.
#[verifier::external_body]
pub(crate) fn saturating_add(a: u128, b: u128) -> (r: u128)
    ensures
        r == saturate(a + b),
{
    Uint128::new(a).saturating_add(Uint128::new(b)).u128()
}

/// `Uint128::saturating_sub`: the difference, or zero where it would be
/// negative.
#[verifier::external_body]
pub(crate) fn saturating_sub(a: u128, b: u128) -> (r: u128)
    ensures
        r == saturate(a - b),
{
    Uint128::new(a).saturating_sub(Uint128::new(b)).u128()
}

/// The sum of two amounts, or `Overflow` where it does not fit.
pub fn checked_add(a: u128, b: u128) -> (r: Result<u128, AmountError>)
    ensures
        a + b <= max_amount() ==> (r matches Ok(value) && value == (a + b) as u128),
        a + b > max_amount() ==> (r matches Err(reason) && reason == AmountError::Overflow),
{
    match uint128_checked_add(a, b) {
        Ok(sum) => Ok(sum),
        Err(_) => Err(AmountError::Overflow),
    }
}

/// The difference of two amounts, or `Overflow` where it would be negative.
pub fn checked_sub(a: u128, b: u128) -> (r: Result<u128, AmountError>)
    ensures
        a >= b ==> (r matches Ok(value) && value == (a - b) as u128),
        a < b ==> (r matches Err(reason) && reason == AmountError::Overflow),
{
    match uint128_checked_sub(a, b) {
        Ok(difference) => Ok(difference),
        Err(_) => Err(AmountError::Overflow),
    }
}

/// The product of two amounts, or `Overflow` where it does not fit.
pub fn checked_mul(a: u128, b: u128) -> (r: Result<u128, AmountError>)
    ensures
        a * b <= max_amount() ==> (r matches Ok(value) && value == (a * b) as u128),
        a * b > max_amount() ==> (r matches Err(reason) && reason == AmountError::Overflow),
{
    match uint128_checked_mul(a, b) {
        Ok(product) => Ok(product),
        Err(_) => Err(AmountError::Overflow),
    }
}

/// The quotient of two amounts, rounded down, or `DivideByZero`.
pub fn checked_div(a: u128, b: u128) -> (r: Result<u128, AmountError>)
    ensures
        b != 0 ==> (r matches Ok(value) && value == (a / b) as u128),
        b == 0 ==> (r matches Err(reason) && reason == AmountError::DivideByZero),
{
    match uint128_checked_div(a, b) {
        Ok(quotient) => Ok(quotient),
        Err(_) => Err(AmountError::DivideByZero),
    }
}

/// The product of two amounts, cut off at the largest amount.
pub fn saturating_mul(a: u128, b: u128) -> (r: u128)
    ensures
        r == saturate(a * b),
{
    match a.checked_mul(b) {
        Some(product) => product,
        None => u128::MAX,
    }
}

} // verus!
