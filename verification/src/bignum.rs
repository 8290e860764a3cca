//! The arbitrary-precision integers of `num-bigint` and the random source of
//! `rand`, as this library sees them.
//!
//! Nothing in this file is proved. Each function below makes one call into an
//! outside crate; its contract is what the rest of the library believes of that
//! call.

use vstd::prelude::*;
use vstd::arithmetic::power::pow;
use num_bigint::{BigInt, BigUint, RandBigInt};
use num_traits::{One, Pow, Zero};
use rand::Rng;
use crate::model::{radix_string, trunc_div};

verus! {

/// `num_bigint::BigUint`, an unsigned integer of any size.
#[verifier::external_type_specification]
#[verifier::external_body]
pub struct ExBigUint(num_bigint::BigUint);

/// `num_bigint::BigInt`, a signed integer of any size.
#[verifier::external_type_specification]
#[verifier::external_body]
pub struct ExBigInt(num_bigint::BigInt);

/// The natural number that a `BigUint` holds.
pub uninterp spec fn nat_of(n: BigUint) -> nat;

/// The integer that a `BigInt` holds.
pub uninterp spec fn int_of(n: BigInt) -> int;

/// `BigUint::from(u32)`: the big integer with the value of `v`.
#[verifier::external_body]
pub(crate) fn big_from_u32(v: u32) -> (r: BigUint)
    ensures
        nat_of(r) == v,
{
    BigUint::from(v)
}

/// `Clone::clone` of a `BigUint`: a copy with the same value.
#[verifier::external_body]
pub(crate) fn big_clone(n: &BigUint) -> (r: BigUint)
    ensures
        nat_of(r) == nat_of(*n),
{
    n.clone()
}

/// `num_traits::Zero::is_zero` of a `BigUint`: whether the value is 0.
#[verifier::external_body]
pub(crate) fn big_is_zero(n: &BigUint) -> (r: bool)
    ensures
        r == (nat_of(*n) == 0),
{
    n.is_zero()
}

/// `num_traits::One::is_one` of a `BigUint`: whether the value is 1.
#[verifier::external_body]
pub(crate) fn big_is_one(n: &BigUint) -> (r: bool)
    ensures
        r == (nat_of(*n) == 1),
{
    n.is_one()
}

/// `&BigUint + &BigUint`: the sum.
#[verifier::external_body]
pub(crate) fn big_add(a: &BigUint, b: &BigUint) -> (r: BigUint)
    ensures
        nat_of(r) == nat_of(*a) + nat_of(*b),
{
    a + b
}

/// `&BigUint - &BigUint`: the difference. The outside function panics where
/// the result would be negative, so the contract asks that it is not.
#[verifier::external_body]
pub(crate) fn big_sub(a: &BigUint, b: &BigUint) -> (r: BigUint)
    requires
        nat_of(*a) >= nat_of(*b),
    ensures
        nat_of(r) == nat_of(*a) - nat_of(*b),
{
    a - b
}

/// `&BigUint * &BigUint`: the product.
#[verifier::external_body]
pub(crate) fn big_mul(a: &BigUint, b: &BigUint) -> (r: BigUint)
    ensures
        nat_of(r) == nat_of(*a) * nat_of(*b),
{
    a * b
}

/// `&BigUint / &BigUint`: the quotient, rounded down. The outside function
/// panics on a zero divisor.
#[verifier::external_body]
pub(crate) fn big_div(a: &BigUint, b: &BigUint) -> (r: BigUint)
    requires
        nat_of(*b) != 0,
    ensures
        nat_of(r) == nat_of(*a) / nat_of(*b),
{
    a / b
}

/// `&BigUint % &BigUint`: the remainder. The outside function panics on a
/// zero divisor.
#[verifier::external_body]
pub(crate) fn big_rem(a: &BigUint, b: &BigUint) -> (r: BigUint)
    requires
        nat_of(*b) != 0,
    ensures
        nat_of(r) == nat_of(*a) % nat_of(*b),
{
    a % b
}

/// `num_traits::Pow::pow` of a `&BigUint` with a `u32` exponent: the power.
#[verifier::external_body]
pub(crate) fn big_pow(base: &BigUint, exp: u32) -> (r: BigUint)
    ensures
        nat_of(r) == pow(nat_of(*base) as int, exp as nat),
{
    Pow::pow(base, exp)
}

/// `BigUint::to_str_radix`, as the bytes of the string it returns: the digits
/// of the value in the given radix, most significant first, with no leading
/// zero, `0`-`9` and then lower-case `a`-`z`. The outside function panics on a
/// radix outside 2..=36.
#[verifier::external_body]
pub(crate) fn big_radix_digits(n: &BigUint, radix: u32) -> (r: Vec<u8>)
    requires
        2 <= radix <= 36,
    ensures
        r@ == radix_string(nat_of(*n), radix as nat),
{
    n.to_str_radix(radix).into_bytes()
}

/// `RandBigInt::gen_biguint` on `rand::thread_rng()`: some value of at most
/// `bits` bits. Which one is left open.
#[verifier::external_body]
pub(crate) fn random_bits(bits: u64) -> (r: BigUint)
    ensures
        nat_of(r) < pow(2, bits as nat),
{
    rand::thread_rng().gen_biguint(bits)
}

/// `Rng::gen_range(1..10)` on `rand::thread_rng()`: some value from 1 to 9.
/// Which one is left open.
#[verifier::external_body]
pub(crate) fn random_digit() -> (r: u8)
    ensures
        1 <= r < 10,
{
    rand::thread_rng().gen_range(1..10)
}

/// `BigInt::from(u8)`: the big integer with the value of `v`.
#[verifier::external_body]
pub(crate) fn signed_from_u8(v: u8) -> (r: BigInt)
    ensures
        int_of(r) == v,
{
    BigInt::from(v)
}

/// `Clone::clone` of a `BigInt`: a copy with the same value.
#[verifier::external_body]
pub(crate) fn signed_clone(n: &BigInt) -> (r: BigInt)
    ensures
        int_of(r) == int_of(*n),
{
    n.clone()
}

/// `num_traits::Zero::is_zero` of a `BigInt`: whether the value is 0.
#[verifier::external_body]
pub(crate) fn signed_is_zero(n: &BigInt) -> (r: bool)
    ensures
        r == (int_of(*n) == 0),
{
    n.is_zero()
}

/// `&BigInt - &BigInt`: the difference.
#[verifier::external_body]
pub(crate) fn signed_sub(a: &BigInt, b: &BigInt) -> (r: BigInt)
    ensures
        int_of(r) == int_of(*a) - int_of(*b),
{
    a - b
}

/// `&BigInt * &BigInt`: the product.
#[verifier::external_body]
pub(crate) fn signed_mul(a: &BigInt, b: &BigInt) -> (r: BigInt)
    ensures
        int_of(r) == int_of(*a) * int_of(*b),
{
    a * b
}

/// `&BigInt / &BigInt`: the quotient, rounded toward zero. The outside
/// function panics on a zero divisor.
#[verifier::external_body]
pub(crate) fn signed_div(a: &BigInt, b: &BigInt) -> (r: BigInt)
    requires
        int_of(*b) != 0,
    ensures
        int_of(r) == trunc_div(int_of(*a), int_of(*b)),
{
    a / b
}

} // verus!
