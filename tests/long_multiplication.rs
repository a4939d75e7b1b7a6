use num_bigint::BigUint;
use rand::distributions::{Distribution, Uniform};
use rand::rngs::StdRng;
use rand::SeedableRng;
use strength_reduce::long_multiplication::multiply_256_by_128_upperbits;

fn check_upper_bits(a_hi: u128, a_lo: u128, b: u128) {
    let a = (BigUint::from(a_hi) << 128) | BigUint::from(a_lo);
    let expected = (a * BigUint::from(b)) >> 256;
    assert_eq!(BigUint::from(multiply_256_by_128_upperbits(a_hi, a_lo, b)), expected, "{}:{} * {}", a_hi, a_lo, b);
}

#[test]
fn upper_bits_match_reference_multiplication() {
    let mut gen = StdRng::seed_from_u64(2024);
    let any = Uniform::new_inclusive(0u128, u128::MAX);
    for _ in 0..20_000 {
        check_upper_bits(any.sample(&mut gen), any.sample(&mut gen), any.sample(&mut gen));
    }
}

#[test]
fn upper_bits_edge_operands() {
    let edges = [0u128, 1, 2, u64::MAX as u128, u64::MAX as u128 + 1, u128::MAX - 1, u128::MAX];
    for &a_hi in &edges {
        for &a_lo in &edges {
            for &b in &edges {
                check_upper_bits(a_hi, a_lo, b);
            }
        }
    }
}

#[test]
fn upper_bits_exact_value() {
    // (2^256 - 1) * (2^128 - 1) = 2^384 - 2^256 - 2^128 + 1, whose top 128 bits are 2^128 - 2
    assert_eq!(multiply_256_by_128_upperbits(u128::MAX, u128::MAX, u128::MAX), u128::MAX - 1);
    // 2^128 * 2^127 = 2^255 stays below 2^256
    assert_eq!(multiply_256_by_128_upperbits(1, 0, 1 << 127), 0);
    // 2^128 * 2^128 = 2^256
    assert_eq!(multiply_256_by_128_upperbits(1, 0, 0), 0);
    assert_eq!(multiply_256_by_128_upperbits(u128::MAX, 0, 2), 1);
}
