//! Lemmas behind the contracts.

use vstd::prelude::*;
use vstd::arithmetic::power::{
    pow, lemma_pow0, lemma_pow1, lemma_pow_adds, lemma_pow_multiplies, lemma_pow_mod_noop,
    lemma_pow_increases, lemma_pow_positive, lemma_square_is_pow2,
};
use vstd::arithmetic::power2::{lemma2_to64, lemma_pow2};
use vstd::arithmetic::div_mod::{lemma_mul_mod_noop, lemma_small_mod, lemma_mod_bound};
use crate::model::{digit_count, radix_string, lemma_quotient_smaller, block_base, with_last_digit};

verus! {

/// A number has as many digits as its digit string is long.
pub proof fn lemma_radix_string_len(v: nat, r: nat)
    ensures
        radix_string(v, r).len() == digit_count(v, r),
    decreases v,
{
    if !(r < 2 || v < r) {
        lemma_quotient_smaller(v, r);
        lemma_radix_string_len(v / r, r);
    }
}

/// One round of square-and-multiply keeps the product of the accumulator
/// and the power that is still to be taken, modulo `n`.
pub proof fn lemma_mod_pow_step(res: nat, t: nat, e: nat, n: nat)
    requires
        n > 0,
        e > 0,
    ensures
        ({
            let res2 = if e % 2 == 1 {
                (res * t) % n
            } else {
                res
            };
            let square = ((t * t) % n) as int;
            (res2 * pow(square, e / 2)) % (n as int) == (res * pow(t as int, e)) % (n as int)
        }),
        e / 2 < e,
        e % 2 == 1 ==> (res * t) % n < n,
        e % 2 != 1 ==> e / 2 > 0,
{
    let h: nat = e / 2;
    let m = n as int;
    let tt = (t * t) as int;
    let res2: int = if e % 2 == 1 {
        ((res * t) % n) as int
    } else {
        res as int
    };
    let rest: int = if e % 2 == 1 {
        (res * t) as int
    } else {
        res as int
    };
    lemma_square_is_pow2(t as int);
    lemma_pow_multiplies(t as int, 2, h);
    assert(pow(tt, h) == pow(t as int, 2 * h));
    lemma_pow_mod_noop(tt, h, m);
    let reduced_power = pow(tt % m, h);
    let p = pow(tt, h);
    assert(reduced_power % m == p % m);
    lemma_mul_mod_noop(res2, reduced_power, m);
    lemma_mul_mod_noop(rest, p, m);
    lemma_mod_bound(rest, m);
    lemma_small_mod((rest % m) as nat, m as nat);
    assert(res2 % m == rest % m);
    assert((res2 * reduced_power) % m == (rest * p) % m);
    if e % 2 == 1 {
        assert(e == 2 * h + 1);
        lemma_pow_adds(t as int, 1, 2 * h);
        lemma_pow1(t as int);
        assert(pow(t as int, e) == t * p);
        assert(rest * p == res * pow(t as int, e)) by (nonlinear_arith)
            requires
                rest == res * t,
                pow(t as int, e) == t * p,
        ;
    } else {
        assert(e == 2 * h);
    }
}

/// When no power is left to take, the accumulator is the result.
pub proof fn lemma_mod_pow_done(res: nat, t: nat, base: nat, exp: nat, n: nat)
    requires
        n > 0,
        res < n,
        (res * pow(t as int, 0)) % (n as int) == pow(base as int, exp) % (n as int),
    ensures
        res == pow(base as int, exp) % (n as int),
{
    lemma_pow0(t as int);
    assert(res * 1 == res);
    lemma_small_mod(res, n);
}

/// A block of at least one byte can take at least two values.
pub proof fn lemma_block_base_large(block_sz: nat)
    requires
        block_sz >= 1,
    ensures
        block_base(block_sz) >= 256,
        block_base(block_sz) == pow(2, 8 * block_sz),
{
    lemma_pow_increases(2, 8, 8 * block_sz);
    lemma_pow_positive(2, 8 * block_sz);
    lemma2_to64();
    lemma_pow2(8);
}

/// Replacing the last decimal digit of `v` by `d` gives a number that ends
/// in `d`.
pub proof fn lemma_last_digit(v: nat, d: nat)
    requires
        d < 10,
    ensures
        with_last_digit(v, d) % 10 == d,
{
    let q = v / 10;
    assert((q * 10 + d) % 10 == d) by (nonlinear_arith)
        requires
            d < 10,
    ;
}

} // verus!
