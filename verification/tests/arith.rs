use num_bigint::{BigInt, BigUint};
use rrsa::maths::{euclide, fmodpow};

fn big(v: u64) -> BigUint {
    BigUint::from(v)
}

fn signed(v: i64) -> BigInt {
    BigInt::from(v)
}

#[test]
fn modular_power_of_known_values() {
    assert_eq!(fmodpow(&big(4), &big(13), &big(497)), big(445));
    assert_eq!(fmodpow(&big(7), &big(128), &big(13)), big(3));
    assert_eq!(fmodpow(&big(2), &big(560), &big(561)), big(1));
    assert_eq!(fmodpow(&big(3), &big(560), &big(561)), big(375));
    assert_eq!(
        fmodpow(&big(123456789), &big(65537), &big(1_000_000_000_000_000_009)),
        big(59666836217847359)
    );
}

#[test]
fn modular_power_with_exponent_zero_is_one() {
    assert_eq!(fmodpow(&big(5), &big(0), &big(7)), big(1));
    assert_eq!(fmodpow(&big(0), &big(0), &big(7)), big(1));
    assert_eq!(fmodpow(&big(123), &big(0), &big(2)), big(1));
}

#[test]
fn modular_power_with_exponent_zero_and_modulus_one_is_not_reduced() {
    assert_eq!(fmodpow(&big(5), &big(0), &big(1)), big(1));
    assert_eq!(fmodpow(&big(5), &big(1), &big(1)), big(0));
    assert_eq!(fmodpow(&big(5), &big(6), &big(1)), big(0));
}

#[test]
fn modular_power_with_exponent_one_is_the_base_reduced() {
    assert_eq!(fmodpow(&big(5), &big(1), &big(7)), big(5));
    assert_eq!(fmodpow(&big(12), &big(1), &big(7)), big(5));
    assert_eq!(fmodpow(&big(0), &big(1), &big(7)), big(0));
    assert_eq!(fmodpow(&big(7), &big(1), &big(7)), big(0));
}

#[test]
fn modular_power_of_base_zero() {
    assert_eq!(fmodpow(&big(0), &big(5), &big(7)), big(0));
}

#[test]
fn modular_power_of_a_sum_of_exponents() {
    for n in [2u64, 3, 10, 97, 561, 1_000_003] {
        for a in [0u64, 1, 2, 7, 560, 123_456] {
            for (b, c) in [(0u64, 1u64), (1, 0), (1, 1), (3, 5), (17, 40), (0, 9)] {
                let whole = fmodpow(&big(a), &big(b + c), &big(n));
                let left = fmodpow(&big(a), &big(b), &big(n));
                let right = fmodpow(&big(a), &big(c), &big(n));
                assert_eq!(whole, (left * right) % big(n));
            }
        }
    }
}

#[test]
fn modular_power_twice_gives_the_same() {
    let a = fmodpow(&big(987654321), &big(123456), &big(1_000_000_007));
    let b = fmodpow(&big(987654321), &big(123456), &big(1_000_000_007));
    assert_eq!(a, b);
}

#[test]
fn euclid_gives_an_inverse_of_17_modulo_3120() {
    let u = euclide(&signed(17), &signed(3120));
    assert_eq!(u, signed(-367));
    let reduced = ((signed(17) * &u) % signed(3120) + signed(3120)) % signed(3120);
    assert_eq!(reduced, signed(1));
}

#[test]
fn euclid_coefficients_of_known_pairs() {
    assert_eq!(euclide(&signed(240), &signed(46)), signed(-9));
    assert_eq!(euclide(&signed(3120), &signed(17)), signed(2));
    assert_eq!(euclide(&signed(65537), &signed(3120)), signed(-367));
}

#[test]
fn euclid_with_a_zero() {
    assert_eq!(euclide(&signed(0), &signed(5)), signed(0));
    assert_eq!(euclide(&signed(5), &signed(0)), signed(1));
    assert_eq!(euclide(&signed(0), &signed(0)), signed(1));
}

#[test]
fn euclid_with_equal_and_negative_numbers() {
    assert_eq!(euclide(&signed(7), &signed(7)), signed(0));
    assert_eq!(euclide(&signed(4), &signed(-6)), signed(1));
    assert_eq!(euclide(&signed(-4), &signed(0)), signed(1));
}

#[test]
fn euclid_coefficient_times_a_is_the_gcd_modulo_b() {
    for (a, b, g) in [(17i64, 3120i64, 1i64), (240, 46, 2), (35, 64, 1), (1071, 462, 21), (5, 7, 1)] {
        let u = euclide(&signed(a), &signed(b));
        let left = ((signed(a) * &u) % signed(b) + signed(b)) % signed(b);
        assert_eq!(left, signed(g % b));
    }
}

#[test]
fn euclid_twice_gives_the_same() {
    assert_eq!(euclide(&signed(1071), &signed(462)), euclide(&signed(1071), &signed(462)));
}
