use num_bigint::BigUint;
use rrsa::maths::{can_rejoin, digit_len, EmptyInputError, NumUtil, VecNumUtil};

fn big(v: u64) -> BigUint {
    BigUint::from(v)
}

fn hex(s: &str) -> BigUint {
    BigUint::parse_bytes(s.as_bytes(), 16).unwrap()
}

#[test]
fn digit_count_in_hexadecimal() {
    assert_eq!(big(255).sz(16), 2);
    assert_eq!(big(256).sz(16), 3);
    assert_eq!(big(15).sz(16), 1);
    assert_eq!(big(16).sz(16), 2);
}

#[test]
fn digit_count_in_other_radixes() {
    assert_eq!(big(0).sz(10), 1);
    assert_eq!(big(9).sz(10), 1);
    assert_eq!(big(10).sz(10), 2);
    assert_eq!(big(1_000_000).sz(10), 7);
    assert_eq!(big(255).sz(2), 8);
    assert_eq!(big(256).sz(2), 9);
    assert_eq!(big(35).sz(36), 1);
    assert_eq!(big(36).sz(36), 2);
}

#[test]
fn digit_count_is_the_length_of_the_digit_string() {
    for radix in 2u32..=36 {
        for v in [0u64, 1, 7, 35, 36, 255, 256, 65535, 65536, 123_456_789, u64::MAX] {
            let n = big(v);
            assert_eq!(n.sz(radix) as usize, n.to_str_radix(radix).len());
        }
    }
}

#[test]
fn byte_length_of_small_values() {
    assert_eq!(big(0).sz_b(), 1);
    assert_eq!(big(255).sz_b(), 1);
    assert_eq!(big(256).sz_b(), 2);
    assert_eq!(big(65535).sz_b(), 2);
    assert_eq!(big(65536).sz_b(), 3);
}

#[test]
fn byte_length_of_a_large_value() {
    assert_eq!(hex("0102030405060708090a").sz_b(), 10);
    assert_eq!(hex("ffffffffffffffffffffffffffffffff").sz_b(), 16);
    assert_eq!(hex("100000000000000000000000000000000").sz_b(), 17);
}

#[test]
fn zero_has_no_blocks() {
    assert_eq!(big(0).expl_r(1), Vec::<BigUint>::new());
    assert_eq!(big(0).expl_r(16), Vec::<BigUint>::new());
}

#[test]
fn blocks_come_most_significant_first() {
    assert_eq!(big(0x010203).expl_r(1), vec![big(1), big(2), big(3)]);
    assert_eq!(big(0x010203).expl_r(2), vec![big(0x01), big(0x0203)]);
    assert_eq!(big(0x010203).expl_r(3), vec![big(0x010203)]);
    assert_eq!(big(0x010203).expl_r(4), vec![big(0x010203)]);
}

#[test]
fn blocks_are_below_the_block_base() {
    let v = hex("fedcba9876543210fedcba9876543210fedcba98");
    for block_sz in 1u32..=8 {
        let base = BigUint::from(2u8).pow(block_sz * 8);
        let parts = v.expl_r(block_sz);
        assert!(!parts.is_empty());
        assert!(parts[0] > big(0));
        for part in &parts {
            assert!(part < &base);
            assert!(part.sz_b() <= block_sz);
        }
    }
}

#[test]
fn blocks_keep_inner_zero_blocks() {
    assert_eq!(big(0x01_0000_02).expl_r(1), vec![big(1), big(0), big(0), big(2)]);
}

#[test]
fn filling_turns_the_whole_buffer_round() {
    let mut buf = vec![big(100), big(200)];
    big(0x0a0b0c).expl_f(&mut buf, 1);
    assert_eq!(buf, vec![big(0x0a), big(0x0b), big(0x0c), big(200), big(100)]);
}

#[test]
fn filling_with_zero_only_turns_the_buffer_round() {
    let mut buf = vec![big(1), big(2), big(3)];
    big(0).expl_f(&mut buf, 4);
    assert_eq!(buf, vec![big(3), big(2), big(1)]);
}

#[test]
fn filling_an_empty_buffer_gives_the_blocks() {
    let mut buf: Vec<BigUint> = Vec::new();
    big(0xaabbccdd).expl_f(&mut buf, 2);
    assert_eq!(buf, vec![big(0xaabb), big(0xccdd)]);
    assert_eq!(buf, big(0xaabbccdd).expl_r(2));
}

#[test]
fn rejoin_refuses_an_empty_sequence_of_blocks() {
    let parts: Vec<BigUint> = Vec::new();
    assert_eq!(parts.rejoin(), Err(EmptyInputError));
}

#[test]
fn rejoin_refuses_an_empty_sequence_of_bytes() {
    let bytes: Vec<u8> = Vec::new();
    assert_eq!(bytes.rejoin(), Err(EmptyInputError));
}

#[test]
fn rejoin_of_bytes_weighs_each_by_256() {
    assert_eq!(vec![1u8, 2, 3].rejoin(), Ok(big(0x010203)));
    assert_eq!(vec![0u8].rejoin(), Ok(big(0)));
    assert_eq!(vec![0u8, 0, 7].rejoin(), Ok(big(7)));
    assert_eq!(vec![255u8, 255].rejoin(), Ok(big(65535)));
    assert_eq!(vec![1u8, 0, 0, 0, 0, 0, 0, 0, 0].rejoin(), Ok(BigUint::from(1u128 << 64)));
}

#[test]
fn rejoin_of_blocks_weighs_each_by_its_own_width() {
    assert_eq!(vec![big(1), big(2), big(3)].rejoin(), Ok(big(0x010203)));
    assert_eq!(vec![big(0xaabb), big(0xccdd)].rejoin(), Ok(big(0xaabbccdd)));
    assert_eq!(vec![big(5)].rejoin(), Ok(big(5)));
    assert_eq!(vec![big(0)].rejoin(), Ok(big(0)));
    assert_eq!(vec![big(1), big(0x100)].rejoin(), Ok(big(0x010100)));
}

#[test]
fn rejoin_gives_back_a_number_split_into_full_blocks() {
    let v = hex("fedcba9876543210fedcba9876543210fedcba98");
    for block_sz in [1u32, 2, 4, 5, 10, 20, 21, 64] {
        assert_eq!(v.expl_r(block_sz).rejoin(), Ok(v.clone()));
    }
    let short_top = hex("01ffffffff");
    assert_eq!(short_top.expl_r(2).rejoin(), Ok(short_top.clone()));
    assert_eq!(short_top.expl_r(4).rejoin(), Ok(short_top));
}

#[test]
fn rejoin_loses_a_number_with_a_short_inner_block() {
    let v = big(0x01_0001);
    let parts = v.expl_r(2);
    assert_eq!(parts, vec![big(1), big(1)]);
    assert_eq!(parts.rejoin(), Ok(big(0x0101)));
}

#[test]
fn splitting_zero_and_joining_is_refused() {
    assert_eq!(big(0).expl_r(8).rejoin(), Err(EmptyInputError));
}

#[test]
fn splitting_twice_gives_the_same_blocks() {
    let v = hex("1234567890abcdef1234567890abcdef");
    assert_eq!(v.expl_r(3), v.expl_r(3));
    assert_eq!(v.expl_r(3).rejoin(), v.expl_r(3).rejoin());
    assert_eq!(v.sz(7), v.sz(7));
}

#[test]
fn digit_length_is_the_digit_count() {
    assert_eq!(digit_len(&big(0), 2), 1);
    assert_eq!(digit_len(&big(255), 16), 2);
    assert_eq!(digit_len(&big(256), 16), 3);
    assert_eq!(digit_len(&big(999), 10), 3);
    assert_eq!(digit_len(&hex("ffffffffffffffffffffffff"), 16), 24);
}

#[test]
fn blocks_of_ordinary_width_can_be_joined() {
    assert!(can_rejoin(&Vec::new()));
    assert!(can_rejoin(&vec![big(0), big(1), big(u64::MAX)]));
    assert!(can_rejoin(&hex("fedcba9876543210fedcba9876543210").expl_r(3)));
}
