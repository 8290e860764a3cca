//! The arithmetic toolkit: block splitting and rejoining, modular power,
//! extended Euclid, the exponent selector, the primality check and the
//! candidate generator.

use vstd::prelude::*;
use vstd::arithmetic::power::{pow, lemma_pow_positive};
use vstd::arithmetic::power2::lemma2_to64;
use num_bigint::{BigInt, BigUint};
use crate::bignum::{
    nat_of, int_of, big_from_u32, big_clone, big_is_zero, big_is_one, big_add, big_sub, big_mul,
    big_div, big_rem, big_pow, big_radix_digits, random_bits, random_digit, signed_from_u8,
    signed_clone, signed_is_zero, signed_sub, signed_mul, signed_div,
};
use crate::model::{
    abs, digit_count, radix_string, byte_length, block_base, chunks, chunks_in, rejoined,
    bytes_value, values, mod_pow, fermat_passes, euclid_coeff, bezout_coeff, small_primes,
    first_non_divisor_at, all_divide, prime_ending, with_last_digit, lemma_trunc_rem_bound,
    lemma_quotient_smaller,
};
use crate::proofs::{
    lemma_radix_string_len, lemma_mod_pow_step, lemma_mod_pow_done, lemma_block_base_large,
    lemma_last_digit,
};
use crate::laws::{lemma_chunks_bounded, lemma_byte_length_bound};

verus! {

/// The extended Euclidean algorithm: the coefficient `u` of `a` in
/// `a*u + b*v == g`, where `g` is the last remainder of the run that is not
/// zero.
pub fn euclide(a: &BigInt, b: &BigInt) -> (r: BigInt)
    ensures
        int_of(r) == bezout_coeff(int_of(*a), int_of(*b)),
{
    let mut r1 = signed_clone(a);
    let mut r2 = signed_clone(b);
    let mut u1 = signed_from_u8(1);
    let mut u2 = signed_from_u8(0);
    while !signed_is_zero(&r2)
        invariant
            euclid_coeff(int_of(r1), int_of(r2), int_of(u1), int_of(u2)) == bezout_coeff(
                int_of(*a),
                int_of(*b),
            ),
        decreases abs(int_of(r2)),
    {
        proof {
            lemma_trunc_rem_bound(int_of(r1), int_of(r2));
        }
        let q = signed_div(&r1, &r2);
        let qr = signed_mul(&q, &r2);
        let r3 = signed_sub(&r1, &qr);
        let qu = signed_mul(&q, &u2);
        let u3 = signed_sub(&u1, &qu);
        r1 = r2;
        u1 = u2;
        r2 = r3;
        u2 = u3;
    }
    u1
}

/// Fast modular power by squaring and multiplying: `base` to the `exp`,
/// reduced by `num`. For the exponent 0 the result is 1, whatever `num` is.
pub fn fmodpow(base: &BigUint, exp: &BigUint, num: &BigUint) -> (r: BigUint)
    requires
        nat_of(*num) > 0,
    ensures
        nat_of(r) == mod_pow(nat_of(*base), nat_of(*exp), nat_of(*num)),
{
    let two = big_from_u32(2);
    let mut res = big_from_u32(1);
    let mut exp_bin = big_clone(exp);
    let mut temp = big_clone(base);
    let ghost mut reduced = false;
    while !big_is_zero(&exp_bin)
        invariant
            nat_of(*num) > 0,
            nat_of(two) == 2,
            nat_of(exp_bin) <= nat_of(*exp),
            (nat_of(res) * pow(nat_of(temp) as int, nat_of(exp_bin))) % (nat_of(*num) as int)
                == pow(nat_of(*base) as int, nat_of(*exp)) % (nat_of(*num) as int),
            reduced ==> nat_of(res) < nat_of(*num) && nat_of(*exp) > 0,
            !reduced ==> nat_of(res) == 1 && (nat_of(exp_bin) == 0 ==> nat_of(*exp) == 0),
        decreases nat_of(exp_bin),
    {
        proof {
            lemma_mod_pow_step(nat_of(res), nat_of(temp), nat_of(exp_bin), nat_of(*num));
        }
        let r = big_rem(&exp_bin, &two);
        if big_is_one(&r) {
            let prod = big_mul(&res, &temp);
            res = big_rem(&prod, num);
            proof {
                reduced = true;
            }
        }
        exp_bin = big_div(&exp_bin, &two);
        let square = big_mul(&temp, &temp);
        temp = big_rem(&square, num);
    }
    proof {
        if reduced {
            lemma_mod_pow_done(
                nat_of(res),
                nat_of(temp),
                nat_of(*base),
                nat_of(*exp),
                nat_of(*num),
            );
        }
    }
    res
}

/// The number of digits of `n` in the given radix, however many they are.
pub fn digit_len(n: &BigUint, radix: u32) -> (r: usize)
    requires
        2 <= radix <= 36,
    ensures
        r == digit_count(nat_of(*n), radix as nat),
{
    let digits = big_radix_digits(n, radix);
    proof {
        lemma_radix_string_len(nat_of(*n), radix as nat);
    }
    digits.len()
}

/// What a big unsigned integer offers beyond arithmetic: its size in digits
/// and in bytes, and its splitting into blocks.
pub trait NumUtil {
    /// The number that `self` holds.
    spec fn value(&self) -> nat;

    /// The number of digits of the value in the given radix.
    fn sz(&self, radix: u32) -> (r: u32)
        requires
            2 <= radix <= 36,
            digit_count(self.value(), radix as nat) <= u32::MAX,
        ensures
            r == digit_count(self.value(), radix as nat),
            r == radix_string(self.value(), radix as nat).len(),
    ;

    /// The number of bytes that the value takes.
    fn sz_b(&self) -> (r: u32)
        requires
            digit_count(self.value(), 16) < u32::MAX,
        ensures
            r == byte_length(self.value()),
    {
        (self.sz(16) + 1) / 2
    }

    /// Splits the value into blocks of `block_sz` bytes and appends them to
    /// `buf`, least significant first; then turns the whole of `buf` round,
    /// so that it starts with the most significant block and ends with what
    /// it held before, last item first.
    fn expl_f(&self, buf: &mut Vec<BigUint>, block_sz: u32)
        requires
            1 <= block_sz <= 0x1fff_ffff,
        ensures
            values(final(buf)@) == chunks(self.value(), block_sz as nat) + values(
                old(buf)@,
            ).reverse(),
    ;

    /// The blocks of `block_sz` bytes of the value, most significant first.
    /// Zero has none.
    fn expl_r(&self, block_sz: u32) -> (r: Vec<BigUint>)
        requires
            1 <= block_sz <= 0x1fff_ffff,
        ensures
            values(r@) == chunks(self.value(), block_sz as nat),
            forall|i: int|
                0 <= i < r@.len() ==> nat_of(#[trigger] r@[i]) < block_base(block_sz as nat)
                    && byte_length(nat_of(r@[i])) <= block_sz,
            self.value() > 0 ==> r@.len() > 0 && nat_of(r@[0]) > 0,
    {
        let mut buf: Vec<BigUint> = Vec::new();
        self.expl_f(&mut buf, block_sz);
        proof {
            lemma_block_base_large(block_sz as nat);
            lemma_chunks_bounded(self.value(), block_base(block_sz as nat));
            assert forall|i: int| 0 <= i < buf@.len() implies nat_of(#[trigger] buf@[i])
                < block_base(block_sz as nat) && byte_length(nat_of(buf@[i])) <= block_sz by {
                assert(values(buf@)[i] == nat_of(buf@[i]));
                lemma_byte_length_bound(nat_of(buf@[i]), block_sz as nat);
            }
            assert(buf@.len() > 0 ==> values(buf@)[0] == nat_of(buf@[0]));
            assert(values(Seq::<BigUint>::empty()).reverse() =~= Seq::<nat>::empty());
            assert(chunks(self.value(), block_sz as nat) + Seq::<nat>::empty() =~= chunks(
                self.value(),
                block_sz as nat,
            ));
        }
        buf
    }
}

impl NumUtil for BigUint {
    open spec fn value(&self) -> nat {
        nat_of(*self)
    }

    fn sz(&self, radix: u32) -> (r: u32) {
        proof {
            lemma_radix_string_len(nat_of(*self), radix as nat);
        }
        digit_len(self, radix) as u32
    }

    fn expl_f(&self, buf: &mut Vec<BigUint>, block_sz: u32) {
        let two = big_from_u32(2);
        let m = big_pow(&two, block_sz * 8);
        proof {
            lemma_block_base_large(block_sz as nat);
        }
        let mut op = big_clone(self);
        let ghost mut low: Seq<nat> = Seq::empty();
        assert(values(buf@) + low =~= values(old(buf)@));
        assert(chunks_in(nat_of(op), nat_of(m)) + low.reverse() =~= chunks_in(
            nat_of(op),
            nat_of(m),
        ));
        while !big_is_zero(&op)
            invariant
                nat_of(m) == block_base(block_sz as nat),
                nat_of(m) >= 2,
                values(buf@) == values(old(buf)@) + low,
                chunks_in(nat_of(op), nat_of(m)) + low.reverse() == chunks_in(
                    nat_of(*self),
                    nat_of(m),
                ),
            decreases nat_of(op),
        {
            let part = big_rem(&op, &m);
            proof {
                lemma_quotient_smaller(nat_of(op), nat_of(m));
                let rest = chunks_in(nat_of(op) / nat_of(m), nat_of(m));
                assert(rest.push(nat_of(part)) + low.reverse() =~= rest + low.push(
                    nat_of(part),
                ).reverse());
                assert(values(buf@.push(part)) =~= values(buf@).push(nat_of(part)));
                assert(values(buf@).push(nat_of(part)) =~= values(old(buf)@) + low.push(
                    nat_of(part),
                ));
                low = low.push(nat_of(part));
            }
            buf.push(part);
            op = big_div(&op, &m);
        }
        let ghost filled = buf@;
        let mut turned: Vec<BigUint> = Vec::new();
        while buf.len() > 0
            invariant
                turned@ + buf@.reverse() == filled.reverse(),
            decreases buf.len(),
        {
            let ghost before = buf@;
            let last = buf.pop().unwrap();
            proof {
                assert(before.reverse() =~= seq![last] + buf@.reverse());
                assert(turned@.push(last) + buf@.reverse() =~= turned@ + before.reverse());
            }
            turned.push(last);
        }
        proof {
            assert(turned@ =~= filled.reverse());
            assert(values(filled.reverse()) =~= values(filled).reverse());
            assert((values(old(buf)@) + low).reverse() =~= low.reverse() + values(
                old(buf)@,
            ).reverse());
            assert(chunks_in(nat_of(op), nat_of(m)) + low.reverse() =~= low.reverse());
        }
        *buf = turned;
    }
}

/// A sequence with no item was handed to a function that joins a sequence
/// into one number.
#[derive(Debug, Clone, Copy, PartialEq, Eq)]
pub struct EmptyInputError;

/// What a sequence of blocks offers: the number that they are the parts of.
pub trait VecNumUtil {
    /// The numbers that the items hold, first item first.
    spec fn parts(&self) -> Seq<nat>;

    /// Whether the width of each item, in bits, fits the machine's 32-bit
    /// exponent.
    spec fn joinable(&self) -> bool;

    /// The number that the items are joined to.
    spec fn joined(&self) -> nat;

    /// Joins the items, most significant first, into one number. A sequence
    /// without items is refused.
    fn rejoin(&self) -> (r: Result<BigUint, EmptyInputError>)
        requires
            self.joinable(),
        ensures
            r is Err <==> self.parts().len() == 0,
            r is Ok ==> nat_of(r->Ok_0) == self.joined(),
    ;
}

impl VecNumUtil for Vec<BigUint> {
    open spec fn parts(&self) -> Seq<nat> {
        values(self@)
    }

    open spec fn joinable(&self) -> bool {
        forall|i: int|
            0 <= i < self@.len() ==> byte_length(#[trigger] nat_of(self@[i])) <= 0x1fff_ffff
    }

    /// Each item is taken to be as wide as its own byte length.
    open spec fn joined(&self) -> nat {
        rejoined(values(self@))
    }

    fn rejoin(&self) -> (r: Result<BigUint, EmptyInputError>) {
        if self.len() == 0 {
            return Err(EmptyInputError);
        }
        let mut b = big_from_u32(0);
        let base = big_from_u32(2);
        let mut i: usize = 0;
        assert(values(self@).take(0) =~= Seq::<nat>::empty());
        while i < self.len()
            invariant
                0 <= i <= self.len(),
                self.joinable(),
                nat_of(base) == 2,
                nat_of(b) == rejoined(values(self@).take(i as int)),
            decreases self.len() - i,
        {
            let part = &self[i];
            proof {
                let upto = values(self@).take(i + 1);
                assert(upto.drop_last() =~= values(self@).take(i as int));
                assert(upto.last() == nat_of(*part));
                lemma_pow_positive(2, 8 * byte_length(nat_of(*part)));
            }
            let mult = big_pow(&base, part.sz_b() * 8);
            let shifted = big_mul(&b, &mult);
            b = big_add(&shifted, part);
            i += 1;
        }
        assert(values(self@).take(i as int) =~= values(self@));
        Ok(b)
    }
}

/// Whether `parts` can be handed to `rejoin`: whether each block is narrow
/// enough for its width in bits to be a 32-bit exponent.
pub fn can_rejoin(parts: &Vec<BigUint>) -> (r: bool)
    ensures
        r == parts.joinable(),
{
    let mut i: usize = 0;
    while i < parts.len()
        invariant
            0 <= i <= parts.len(),
            forall|j: int|
                0 <= j < i ==> byte_length(#[trigger] nat_of(parts@[j])) <= 0x1fff_ffff,
        decreases parts.len() - i,
    {
        if digit_len(&parts[i], 16) > 0x3fff_fffe {
            assert(byte_length(nat_of(parts@[i as int])) > 0x1fff_ffff);
            return false;
        }
        i += 1;
    }
    true
}

impl VecNumUtil for Vec<u8> {
    open spec fn parts(&self) -> Seq<nat> {
        self@.map_values(|b: u8| b as nat)
    }

    open spec fn joinable(&self) -> bool {
        true
    }

    /// Each item is one byte wide.
    open spec fn joined(&self) -> nat {
        bytes_value(self@)
    }

    fn rejoin(&self) -> (r: Result<BigUint, EmptyInputError>) {
        if self.len() == 0 {
            return Err(EmptyInputError);
        }
        let mut b = big_from_u32(0);
        let two = big_from_u32(2);
        let mult = big_pow(&two, 8);
        proof {
            lemma2_to64();
        }
        let mut i: usize = 0;
        assert(self@.take(0) =~= Seq::<u8>::empty());
        while i < self.len()
            invariant
                0 <= i <= self.len(),
                nat_of(mult) == 256,
                nat_of(b) == bytes_value(self@.take(i as int)),
            decreases self.len() - i,
        {
            let part = big_from_u32(self[i] as u32);
            proof {
                let upto = self@.take(i + 1);
                assert(upto.drop_last() =~= self@.take(i as int));
            }
            let shifted = big_mul(&b, &mult);
            b = big_add(&shifted, &part);
            i += 1;
        }
        assert(self@.take(i as int) =~= self@);
        Ok(b)
    }
}

/// The small primes that are tried as exponent codes, ascending.
pub const EXPCODE_TAB: [u8; 35] = [
    2, 3, 5, 7, 11, 13, 17, 19, 23, 29, 31, 37, 41, 43, 47, 53, 59, 61, 67, 71, 73, 79, 83, 89,
    97, 101, 103, 107, 109, 113, 127, 131, 137, 139, 149,
];

/// The witness of every round of the primality check.
pub const PRIME_RN: u32 = 12737213u32;

/// The number of rounds of the primality check.
pub const PRIME_ROUNDS: u8 = 20;

/// The exponent code of a number: the first of the small primes that does
/// not divide it, or nothing where all of them do.
pub fn expcode(num: &BigUint) -> (r: Option<BigUint>)
    ensures
        r is None <==> all_divide(nat_of(*num), small_primes()),
        r is Some ==> exists|i: int|
            first_non_divisor_at(nat_of(*num), small_primes(), i) && nat_of(r->Some_0)
                == small_primes()[i],
{
    assert(EXPCODE_TAB@ =~= small_primes());
    let mut k: usize = 0;
    while k < 35
        invariant
            0 <= k <= 35,
            EXPCODE_TAB@ == small_primes(),
            forall|j: int|
                0 <= j < k ==> small_primes()[j] != 0
                    && nat_of(*num) % (#[trigger] small_primes()[j] as nat) == 0,
        decreases 35 - k,
    {
        let p: u8 = EXPCODE_TAB[k];
        let code = big_from_u32(p as u32);
        let left = big_rem(num, &code);
        if !big_is_zero(&left) {
            assert(first_non_divisor_at(nat_of(*num), small_primes(), k as int));
            return Some(code);
        }
        k += 1;
    }
    None
}

/// One round of the primality check: whether `num` passes Fermat's check
/// for the given witness.
pub fn fermat_round(num: &BigUint, witness: u32) -> (r: bool)
    requires
        nat_of(*num) > 0,
    ensures
        r == fermat_passes(nat_of(*num), witness as nat),
{
    let w = big_from_u32(witness);
    let one = big_from_u32(1);
    let reduced = big_rem(&w, num);
    let top = big_sub(num, &one);
    let power = fmodpow(&reduced, &top, num);
    big_is_one(&power)
}

/// Whether `num` is probably prime: whether it passes Fermat's check for the
/// fixed witness `PRIME_RN`, round after round. A composite number that
/// passes for this witness is reported prime.
pub fn isprime(num: &BigUint) -> (r: bool)
    requires
        nat_of(*num) > 0,
    ensures
        r == fermat_passes(nat_of(*num), PRIME_RN as nat),
{
    let mut round: u8 = 0;
    while round < PRIME_ROUNDS
        invariant
            nat_of(*num) > 0,
            round <= PRIME_ROUNDS,
            round > 0 ==> fermat_passes(nat_of(*num), PRIME_RN as nat),
        decreases PRIME_ROUNDS - round,
    {
        if !fermat_round(num, PRIME_RN) {
            return false;
        }
        round += 1;
    }
    true
}

/// Whether a drawn digit is kept as the last digit of a candidate: it is
/// odd and not 5.
pub fn keeps_digit(digit: u8) -> (r: bool)
    ensures
        r == (digit % 2 == 1 && digit != 5),
        digit < 10 ==> r == prime_ending(digit as nat),
{
    !(digit % 2 == 0 || digit == 5)
}

/// The candidate made of a drawn number and a drawn digit: the number with
/// its last decimal digit replaced by the digit.
pub fn primelike_from(raw: BigUint, digit: u8) -> (r: BigUint)
    ensures
        nat_of(r) == with_last_digit(nat_of(raw), digit as nat),
        digit < 10 ==> nat_of(r) % 10 == digit,
{
    let ten = big_from_u32(10);
    let tens = big_div(&raw, &ten);
    let rounded = big_mul(&tens, &ten);
    let last = big_from_u32(digit as u32);
    proof {
        if digit < 10 {
            lemma_last_digit(nat_of(raw), digit as nat);
        }
    }
    big_add(&rounded, &last)
}

/// A random number of about `szb` bytes that is neither even nor a multiple
/// of 5: a random number of `szb * 8` bits with its last decimal digit
/// replaced by 1, 3, 7 or 9. The digit is drawn from 1 to 9 until it is one
/// of these; after `u64::MAX` draws that were not, it is 1.
pub fn rand_primelike(szb: u64) -> (r: BigUint)
    requires
        szb <= 0x1fff_ffff_ffff_ffff,
    ensures
        prime_ending(nat_of(r) % 10),
        exists|raw: nat, digit: nat|
            raw < pow(2, (szb * 8) as nat) && prime_ending(digit) && nat_of(r)
                == #[trigger] with_last_digit(raw, digit),
{
    let raw = random_bits(szb * 8);
    let mut digit: u8 = 0;
    let mut draws_left: u64 = u64::MAX;
    while !keeps_digit(digit) && draws_left > 0
        invariant
            digit < 10,
        decreases draws_left,
    {
        digit = random_digit();
        draws_left -= 1;
    }
    if !keeps_digit(digit) {
        digit = 1;
    }
    let ghost drawn = nat_of(raw);
    let r = primelike_from(raw, digit);
    assert(nat_of(r) == with_last_digit(drawn, digit as nat));
    r
}

} // verus!
