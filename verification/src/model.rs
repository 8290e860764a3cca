//! The mathematics that the contracts of this library speak of.

use vstd::prelude::*;
use vstd::arithmetic::power::pow;
use num_bigint::BigUint;
use crate::bignum::nat_of;

verus! {

/// The ASCII byte that stands for the digit `d` (below 36): `0`-`9`, then
/// lower-case `a`-`z`.
pub open spec fn digit_byte(d: nat) -> u8 {
    if d < 10 {
        (48 + d) as u8
    } else {
        (87 + d) as u8
    }
}

/// The digits of `v` in radix `r`, most significant first, as ASCII bytes.
/// Zero is the single digit `0`.
pub open spec fn radix_string(v: nat, r: nat) -> Seq<u8>
    decreases v,
    via radix_string_decreases
{
    if r < 2 || v < r {
        seq![digit_byte(v)]
    } else {
        radix_string(v / r, r).push(digit_byte(v % r))
    }
}

#[via_fn]
proof fn radix_string_decreases(v: nat, r: nat) {
    lemma_quotient_smaller(v, r);
}

/// The number of digits of `v` in radix `r`. Zero has one digit.
pub open spec fn digit_count(v: nat, r: nat) -> nat
    decreases v,
    via digit_count_decreases
{
    if r < 2 || v < r {
        1
    } else {
        1 + digit_count(v / r, r)
    }
}

#[via_fn]
proof fn digit_count_decreases(v: nat, r: nat) {
    lemma_quotient_smaller(v, r);
}

/// Dividing a positive number by 2 or more makes it smaller.
pub proof fn lemma_quotient_smaller(v: nat, r: nat)
    ensures
        r >= 2 && v > 0 ==> v / r < v,
{
    assert(r >= 2 && v > 0 ==> v / r < v) by (nonlinear_arith);
}

/// The least number of bytes that hold the hexadecimal digits of `v`. Zero
/// takes one byte.
pub open spec fn byte_length(v: nat) -> nat {
    (digit_count(v, 16) + 1) / 2
}

/// The number of values that a block of `block_sz` bytes can take.
pub open spec fn block_base(block_sz: nat) -> nat {
    pow(2, 8 * block_sz) as nat
}

/// The blocks of `v`, each below `base`, most significant first. Zero has no
/// block.
pub open spec fn chunks_in(v: nat, base: nat) -> Seq<nat>
    decreases v,
    via chunks_in_decreases
{
    if v == 0 || base < 2 {
        Seq::empty()
    } else {
        chunks_in(v / base, base).push(v % base)
    }
}

#[via_fn]
proof fn chunks_in_decreases(v: nat, base: nat) {
    lemma_quotient_smaller(v, base);
}

/// The blocks of `v` of `block_sz` bytes each, most significant first.
pub open spec fn chunks(v: nat, block_sz: nat) -> Seq<nat> {
    chunks_in(v, block_base(block_sz))
}

/// The number that a sequence of blocks, most significant first, is joined
/// to, where each block is as wide as its own byte length.
pub open spec fn rejoined(parts: Seq<nat>) -> nat
    decreases parts.len(),
{
    if parts.len() == 0 {
        0
    } else {
        rejoined(parts.drop_last()) * block_base(byte_length(parts.last())) + parts.last()
    }
}

/// The number that a sequence of bytes, most significant first, stands for.
pub open spec fn bytes_value(bytes: Seq<u8>) -> nat
    decreases bytes.len(),
{
    if bytes.len() == 0 {
        0
    } else {
        bytes_value(bytes.drop_last()) * 256 + bytes.last() as nat
    }
}

/// The values of a sequence of big integers.
pub open spec fn values(s: Seq<BigUint>) -> Seq<nat> {
    s.map_values(|b: BigUint| nat_of(b))
}

/// What square-and-multiply gives for `base` to the `exp` modulo `modulus`:
/// the power reduced by the modulus, but 1 unreduced for the exponent 0.
pub open spec fn mod_pow(base: nat, exp: nat, modulus: nat) -> nat {
    if exp == 0 {
        1
    } else {
        (pow(base as int, exp) % (modulus as int)) as nat
    }
}

/// Whether `n` passes Fermat's check for the witness `w`: the witness,
/// reduced by `n`, to the power `n - 1` is 1 modulo `n`.
pub open spec fn fermat_passes(n: nat, w: nat) -> bool {
    mod_pow(w % n, (n - 1) as nat, n) == 1
}

/// The absolute value.
pub open spec fn abs(a: int) -> int {
    if a < 0 {
        -a
    } else {
        a
    }
}

/// The quotient of `a` by `b`, rounded toward zero.
pub open spec fn trunc_div(a: int, b: int) -> int {
    if b == 0 {
        0
    } else if (a >= 0) == (b > 0) {
        abs(a) / abs(b)
    } else {
        -(abs(a) / abs(b))
    }
}

/// What is left of `a` after taking out `b` as often as `trunc_div` says.
pub open spec fn trunc_rem(a: int, b: int) -> int {
    a - trunc_div(a, b) * b
}

/// The remainder of a division that rounds toward zero is smaller than the
/// divisor, and has the sign of the dividend.
pub proof fn lemma_trunc_rem_bound(a: int, b: int)
    requires
        b != 0,
    ensures
        abs(trunc_rem(a, b)) < abs(b),
        a >= 0 ==> trunc_rem(a, b) >= 0,
        a <= 0 ==> trunc_rem(a, b) <= 0,
{
    let x = abs(a);
    let y = abs(b);
    let q = x / y;
    let m = x % y;
    assert(x == y * q + m && 0 <= m < y) by (nonlinear_arith)
        requires
            y > 0,
            q == x / y,
            m == x % y,
    ;
    assert(abs(trunc_rem(a, b)) == m && (a >= 0 ==> trunc_rem(a, b) == m) && (a <= 0
        ==> trunc_rem(a, b) == -m)) by (nonlinear_arith)
        requires
            x == y * q + m,
            x == abs(a),
            y == abs(b),
            b != 0,
            0 <= m,
            trunc_div(a, b) == (if (a >= 0) == (b > 0) {
                q
            } else {
                -q
            }),
            trunc_rem(a, b) == a - trunc_div(a, b) * b,
    ;
}

/// The state of the extended Euclidean algorithm's loop, run to its end from
/// the remainders `r1`, `r2` and the coefficients `u1`, `u2`: the coefficient
/// that stands beside the last remainder that is not zero.
pub open spec fn euclid_coeff(r1: int, r2: int, u1: int, u2: int) -> int
    decreases abs(r2),
    via euclid_coeff_decreases
{
    if r2 == 0 {
        u1
    } else {
        let q = trunc_div(r1, r2);
        euclid_coeff(r2, r1 - q * r2, u2, u1 - q * u2)
    }
}

#[via_fn]
proof fn euclid_coeff_decreases(r1: int, r2: int, u1: int, u2: int) {
    if r2 != 0 {
        lemma_trunc_rem_bound(r1, r2);
    }
}

/// The last remainder that is not zero when the Euclidean algorithm runs
/// from `r1` and `r2` (zero where both are).
pub open spec fn euclid_last(r1: int, r2: int) -> int
    decreases abs(r2),
    via euclid_last_decreases
{
    if r2 == 0 {
        r1
    } else {
        euclid_last(r2, trunc_rem(r1, r2))
    }
}

#[via_fn]
proof fn euclid_last_decreases(r1: int, r2: int) {
    if r2 != 0 {
        lemma_trunc_rem_bound(r1, r2);
    }
}

/// The coefficient of `a` that the extended Euclidean algorithm finds for
/// `a` and `b`.
pub open spec fn bezout_coeff(a: int, b: int) -> int {
    euclid_coeff(a, b, 1, 0)
}

/// The coefficient of `b` that belongs to `bezout_coeff(a, b)`: what the
/// same run finds for `b`.
pub open spec fn bezout_second(a: int, b: int) -> int {
    euclid_coeff(a, b, 0, 1)
}

/// The 35 smallest primes, ascending.
pub open spec fn small_primes() -> Seq<u8> {
    seq![
        2u8, 3u8, 5u8, 7u8, 11u8, 13u8, 17u8, 19u8, 23u8, 29u8, 31u8, 37u8, 41u8, 43u8, 47u8,
        53u8, 59u8, 61u8, 67u8, 71u8, 73u8, 79u8, 83u8, 89u8, 97u8, 101u8, 103u8, 107u8, 109u8,
        113u8, 127u8, 131u8, 137u8, 139u8, 149u8,
    ]
}

/// Whether `i` is the place in `table` of the first entry that does not
/// divide `n`.
pub open spec fn first_non_divisor_at(n: nat, table: Seq<u8>, i: int) -> bool {
    &&& 0 <= i < table.len()
    &&& table[i] != 0
    &&& n % (table[i] as nat) != 0
    &&& forall|j: int| 0 <= j < i ==> table[j] != 0 && n % (#[trigger] table[j] as nat) == 0
}

/// Whether every entry of `table` divides `n`.
pub open spec fn all_divide(n: nat, table: Seq<u8>) -> bool {
    forall|j: int| 0 <= j < table.len() ==> table[j] != 0 && n % (#[trigger] table[j] as nat) == 0
}

/// Whether `d` can end the decimal digits of a prime above 5: odd and not 5.
pub open spec fn prime_ending(d: nat) -> bool {
    d == 1 || d == 3 || d == 7 || d == 9
}

/// `v` with its last decimal digit replaced by zero, plus `d`.
pub open spec fn with_last_digit(v: nat, d: nat) -> nat {
    v / 10 * 10 + d
}

/// `d` taken `k` times.
pub open spec fn multiple(d: int, k: int) -> int {
    d * k
}

/// Whether `d` divides `n`: whether `n` is a multiple of `d`.
pub open spec fn divides(d: int, n: int) -> bool {
    exists|k: int| n == #[trigger] multiple(d, k)
}

/// Whether `g` is the greatest common divisor of `a` and `b`: it is not
/// negative, divides both, and every number that divides both divides it.
pub open spec fn is_gcd(g: int, a: int, b: int) -> bool {
    &&& g >= 0
    &&& divides(g, a)
    &&& divides(g, b)
    &&& forall|d: int| divides(d, a) && divides(d, b) ==> #[trigger] divides(d, g)
}

} // verus!
