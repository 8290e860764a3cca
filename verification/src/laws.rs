//! What holds of the library's functions taken together, stated over the
//! mathematics of their contracts.

use vstd::prelude::*;
use vstd::arithmetic::power::{pow, lemma_pow0, lemma_pow1, lemma_pow_adds, lemma_pow_multiplies};
use vstd::arithmetic::power2::{lemma2_to64, lemma_pow2};
use vstd::arithmetic::div_mod::{
    lemma_mul_mod_noop, lemma_small_mod, lemma_mod_bound, lemma_mod_twice,
    lemma_mod_multiples_vanish,
};
use crate::model::{
    abs, digit_count, byte_length, block_base, chunks, chunks_in, rejoined, mod_pow, trunc_div,
    trunc_rem, euclid_coeff, euclid_last, bezout_coeff, bezout_second, multiple, divides, is_gcd,
    first_non_divisor_at, all_divide, lemma_trunc_rem_bound, lemma_quotient_smaller,
};
use crate::proofs::lemma_block_base_large;

verus! {

/// Every block of a split number is below the base, and the first block is
/// not zero.
pub proof fn lemma_chunks_bounded(v: nat, base: nat)
    requires
        base >= 2,
    ensures
        forall|i: int|
            0 <= i < chunks_in(v, base).len() ==> #[trigger] chunks_in(v, base)[i] < base,
        v > 0 ==> chunks_in(v, base).len() > 0 && chunks_in(v, base)[0] > 0,
        v == 0 ==> chunks_in(v, base).len() == 0,
    decreases v,
{
    if v != 0 {
        lemma_quotient_smaller(v, base);
        lemma_chunks_bounded(v / base, base);
        assert(v % base < base) by (nonlinear_arith)
            requires
                base >= 2,
        ;
        assert(v / base == 0 ==> v % base == v) by (nonlinear_arith)
            requires
                base >= 2,
        ;
    }
}

/// A number below the `k`-th power of the radix has at most `k` digits.
pub proof fn lemma_digit_count_bound(v: nat, r: nat, k: nat)
    requires
        r >= 2,
        k >= 1,
        v < pow(r as int, k),
    ensures
        digit_count(v, r) <= k,
    decreases v,
{
    if v >= r {
        lemma_pow1(r as int);
        if k == 1 {
            assert(false);
        }
        lemma_pow_adds(r as int, 1, (k - 1) as nat);
        let rest = pow(r as int, (k - 1) as nat);
        assert(v / r < rest) by (nonlinear_arith)
            requires
                v < r * rest,
                r >= 2,
        ;
        lemma_quotient_smaller(v, r);
        lemma_digit_count_bound(v / r, r, (k - 1) as nat);
    }
}

/// A number that fits a block of `block_sz` bytes is at most `block_sz`
/// bytes long.
pub proof fn lemma_byte_length_bound(v: nat, block_sz: nat)
    requires
        block_sz >= 1,
        v < block_base(block_sz),
    ensures
        byte_length(v) <= block_sz,
{
    lemma_block_base_large(block_sz);
    lemma_pow_multiplies(2, 4, 2 * block_sz);
    lemma2_to64();
    lemma_pow2(4);
    assert(4 * (2 * block_sz) == 8 * block_sz);
    lemma_digit_count_bound(v, 16, 2 * block_sz);
}

/// Splitting and joining again: a number above zero that is split into
/// blocks of `block_sz` bytes is joined to itself again, where each block
/// after the first is exactly `block_sz` bytes long. (A block that is
/// shorter is joined at its own width, and the number is lost.)
pub proof fn lemma_rejoin_chunks(v: nat, block_sz: nat)
    requires
        v > 0,
        block_sz >= 1,
        forall|i: int|
            1 <= i < chunks(v, block_sz).len() ==> byte_length(#[trigger] chunks(v, block_sz)[i])
                == block_sz,
    ensures
        rejoined(chunks(v, block_sz)) == v,
    decreases v,
{
    let base = block_base(block_sz);
    lemma_block_base_large(block_sz);
    lemma_quotient_smaller(v, base);
    let high = chunks(v / base, block_sz);
    let all = chunks(v, block_sz);
    assert(all == high.push(v % base));
    assert(all.drop_last() =~= high);
    assert(v == (v / base) * base + v % base) by (nonlinear_arith)
        requires
            base >= 2,
    ;
    lemma_chunks_bounded(v / base, base);
    assert(all.last() == v % base);
    assert(rejoined(all) == rejoined(high) * block_base(byte_length(all.last())) + v % base);
    if v / base == 0 {
        assert(rejoined(high) == 0);
        assert(0 * block_base(byte_length(all.last())) == 0);
        assert((v / base) * base == 0) by (nonlinear_arith)
            requires
                v / base == 0,
        ;
    } else {
        assert forall|i: int| 1 <= i < high.len() implies byte_length(
            #[trigger] chunks(v / base, block_sz)[i],
        ) == block_sz by {
            assert(all[i] == high[i]);
        }
        lemma_rejoin_chunks(v / base, block_sz);
        assert(all[all.len() - 1] == all.last());
        assert(byte_length(all.last()) == block_sz);
        assert(rejoined(high) == v / base);
    }
}

/// The modular power for the exponent 0 is 1 reduced by the modulus, for
/// every modulus but 1 (where the power is 1, unreduced).
pub proof fn lemma_mod_pow_zero(a: nat, n: nat)
    requires
        n > 1,
    ensures
        mod_pow(a, 0, n) == 1nat % n,
{
    lemma_small_mod(1, n);
}

/// The modular power for the exponent 1 is the base reduced by the modulus.
pub proof fn lemma_mod_pow_one(a: nat, n: nat)
    requires
        n > 0,
    ensures
        mod_pow(a, 1, n) == a % n,
{
    lemma_pow1(a as int);
}

/// The modular power for a sum of exponents is the product of the modular
/// powers, reduced by the modulus; but for the modulus 1 with both
/// exponents 0.
pub proof fn lemma_mod_pow_adds(a: nat, b: nat, c: nat, n: nat)
    requires
        n > 0,
        n > 1 || b + c > 0,
    ensures
        mod_pow(a, b + c, n) == (mod_pow(a, b, n) * mod_pow(a, c, n)) % n,
{
    let m = n as int;
    let pb = pow(a as int, b);
    let pc = pow(a as int, c);
    lemma_pow_adds(a as int, b, c);
    lemma_pow0(a as int);
    lemma_mul_mod_noop(pb, pc, m);
    lemma_mod_bound(pb, m);
    lemma_mod_bound(pc, m);
    lemma_mod_twice(pb, m);
    lemma_mod_twice(pc, m);
    if b == 0 && c == 0 {
        lemma_small_mod(1, n);
    } else if b == 0 {
        assert(1 * mod_pow(a, c, n) == mod_pow(a, c, n));
        assert(pb * pc == pc);
    } else if c == 0 {
        assert(mod_pow(a, b, n) * 1 == mod_pow(a, b, n));
        assert(pb * pc == pb);
    }
}

/// Along a run of the extended Euclidean algorithm both coefficients stay
/// with their remainder: the run ends with coefficients for its last
/// remainder.
pub proof fn lemma_euclid_run(
    a: int,
    b: int,
    r1: int,
    r2: int,
    u1: int,
    u2: int,
    v1: int,
    v2: int,
)
    requires
        r1 == a * u1 + b * v1,
        r2 == a * u2 + b * v2,
    ensures
        a * euclid_coeff(r1, r2, u1, u2) + b * euclid_coeff(r1, r2, v1, v2) == euclid_last(r1, r2),
    decreases abs(r2),
{
    if r2 != 0 {
        let q = trunc_div(r1, r2);
        lemma_trunc_rem_bound(r1, r2);
        assert(r1 - q * r2 == a * (u1 - q * u2) + b * (v1 - q * v2)) by (nonlinear_arith)
            requires
                r1 == a * u1 + b * v1,
                r2 == a * u2 + b * v2,
        ;
        lemma_euclid_run(a, b, r2, r1 - q * r2, u2, u1 - q * u2, v2, v1 - q * v2);
    }
}

/// The last remainder of a run divides the two numbers that the run starts
/// from, and is not negative where neither of them is.
pub proof fn lemma_euclid_last_divides(r1: int, r2: int)
    ensures
        divides(euclid_last(r1, r2), r1),
        divides(euclid_last(r1, r2), r2),
        r1 >= 0 && r2 >= 0 ==> euclid_last(r1, r2) >= 0,
    decreases abs(r2),
{
    let g = euclid_last(r1, r2);
    if r2 == 0 {
        assert(r1 == multiple(g, 1));
        assert(r2 == multiple(g, 0));
    } else {
        let q = trunc_div(r1, r2);
        let r3 = trunc_rem(r1, r2);
        lemma_trunc_rem_bound(r1, r2);
        lemma_euclid_last_divides(r2, r3);
        let k2 = choose|k: int| r2 == multiple(g, k);
        let k3 = choose|k: int| r3 == multiple(g, k);
        assert(r1 == g * (q * k2 + k3)) by (nonlinear_arith)
            requires
                r2 == g * k2,
                r3 == g * k3,
                r3 == r1 - q * r2,
        ;
        assert(r1 == multiple(g, q * k2 + k3));
    }
}

/// What the extended Euclidean algorithm returns for `a` and `b` is a
/// coefficient `u` for which there is a `v` with `a*u + b*v == g`, where `g`
/// is the last remainder of the run; `g` is the greatest common divisor of
/// `a` and `b`, or its negative, and the greatest common divisor itself
/// where neither `a` nor `b` is negative.
pub proof fn lemma_bezout(a: int, b: int)
    ensures
        a * bezout_coeff(a, b) + b * bezout_second(a, b) == euclid_last(a, b),
        is_gcd(abs(euclid_last(a, b)), a, b),
        a >= 0 && b >= 0 ==> is_gcd(euclid_last(a, b), a, b),
{
    let g = euclid_last(a, b);
    let u = bezout_coeff(a, b);
    let v = bezout_second(a, b);
    assert(a == a * 1 + b * 0 && b == a * 0 + b * 1) by (nonlinear_arith);
    lemma_euclid_run(a, b, a, b, 1, 0, 0, 1);
    assert(a * u + b * v == g);
    lemma_euclid_last_divides(a, b);
    let ka = choose|k: int| a == multiple(g, k);
    let kb = choose|k: int| b == multiple(g, k);
    let h = abs(g);
    let sa = if g < 0 {
        -ka
    } else {
        ka
    };
    let sb = if g < 0 {
        -kb
    } else {
        kb
    };
    assert(a == h * sa && b == h * sb) by (nonlinear_arith)
        requires
            a == g * ka,
            b == g * kb,
            h == abs(g),
            sa == (if g < 0 {
                -ka
            } else {
                ka
            }),
            sb == (if g < 0 {
                -kb
            } else {
                kb
            }),
    ;
    assert(a == multiple(h, sa) && b == multiple(h, sb));
    assert forall|d: int| divides(d, a) && divides(d, b) implies #[trigger] divides(d, h) by {
        let da = choose|k: int| a == multiple(d, k);
        let db = choose|k: int| b == multiple(d, k);
        let w = da * u + db * v;
        let sw = if g < 0 {
            -w
        } else {
            w
        };
        assert(h == d * sw) by (nonlinear_arith)
            requires
                a == d * da,
                b == d * db,
                a * u + b * v == g,
                w == da * u + db * v,
                h == abs(g),
                sw == (if g < 0 {
                    -w
                } else {
                    w
                }),
        ;
        assert(h == multiple(d, sw));
    }
}

/// Modulo a `b` above zero, `a` times the coefficient that the extended
/// Euclidean algorithm returns is the last remainder of the run.
pub proof fn lemma_bezout_mod(a: int, b: int)
    requires
        b > 0,
    ensures
        (a * bezout_coeff(a, b)) % b == euclid_last(a, b) % b,
{
    lemma_bezout(a, b);
    let g = euclid_last(a, b);
    let u = bezout_coeff(a, b);
    let v = bezout_second(a, b);
    lemma_mod_multiples_vanish(-v, g, b);
    assert(a * u == b * (-v) + g) by (nonlinear_arith)
        requires
            a * u + b * v == g,
    ;
}

/// For a `b` above 1 and an `a` that is not negative and has no divisor in
/// common with `b` but 1, the coefficient that the extended Euclidean
/// algorithm returns is an inverse of `a` modulo `b`.
pub proof fn lemma_bezout_inverse(a: int, b: int)
    requires
        a >= 0,
        b > 1,
        is_gcd(1, a, b),
    ensures
        (a * bezout_coeff(a, b)) % b == 1,
{
    lemma_bezout(a, b);
    let g = euclid_last(a, b);
    assert(divides(g, 1));
    let k = choose|k: int| 1 == multiple(g, k);
    assert(g == 1) by (nonlinear_arith)
        requires
            1 == g * k,
            g >= 0,
    ;
    lemma_bezout_mod(a, b);
    lemma_small_mod(1, b as nat);
}

/// A table has at most one first entry that does not divide `n`, and none
/// where every entry divides `n`: the exponent code of a number is one
/// value, or absent, never both.
pub proof fn lemma_first_non_divisor_unique(n: nat, table: Seq<u8>, i: int, j: int)
    requires
        first_non_divisor_at(n, table, i),
    ensures
        !all_divide(n, table),
        first_non_divisor_at(n, table, j) ==> i == j,
{
    assert(n % (table[i] as nat) != 0);
    if first_non_divisor_at(n, table, j) {
        if i < j {
            assert(n % (table[i] as nat) == 0);
        }
        if j < i {
            assert(n % (table[j] as nat) == 0);
        }
    }
}

} // verus!
