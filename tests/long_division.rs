use num_bigint::BigUint;
use rand::distributions::{Distribution, Uniform};
use rand::rngs::StdRng;
use rand::SeedableRng;
use strength_reduce::long_division::{
    divide_128, divide_128_by_32_helper, divide_128_by_64_helper, divide_128_max_by_64,
    divide_256_max_by_128,
};

#[test]
fn test_divide_128_by_64() {
    for divisor in core::u64::MAX..=core::u64::MAX {
        let divisor_128 = core::u64::MAX as u128;

        let numerator = divisor_128 * divisor_128 + (divisor_128 - 1);
        let expected_quotient = numerator / divisor as u128;
        assert!(expected_quotient == core::u64::MAX as u128);

        let actual_quotient = divide_128_by_64_helper(numerator as u128, divisor);

        let expected_upper = (expected_quotient >> 32) as u64;
        let expected_lower = expected_quotient as u32 as u64;
        let actual_upper = (actual_quotient >> 32) as u64;
        let actual_lower = actual_quotient as u32 as u64;

        assert_eq!(expected_upper, actual_upper, "wrong quotient for {}/{}", numerator, divisor);
        assert_eq!(expected_lower, actual_lower, "wrong quotient for {}/{}", numerator, divisor);
    }
}

fn check_divisor_128(divisor: u128) {
    let big_numerator = BigUint::from_slice(&[core::u32::MAX; 8]);
    let big_quotient = big_numerator / divisor;

    let (actual64_hi, actual64_lo) = divide_256_max_by_128(divisor);
    let actual64_big = (BigUint::from(actual64_hi) << 128) | BigUint::from(actual64_lo);

    assert_eq!(big_quotient, actual64_big, "Actual64 quotient didn't match expected quotient for max/{}", divisor);
}

#[test]
fn test_max_256() {
    let log2_tests_per_bit = 6;

    for divisor in 1..(1 << log2_tests_per_bit) {
        check_divisor_128(divisor);
    }

    let mut gen = StdRng::seed_from_u64(5673573);
    for bits in log2_tests_per_bit..128 {
        let lower_start = 1 << bits;
        let lower_stop = lower_start + (1 << (log2_tests_per_bit - 3));
        let upper_stop = 1u128.checked_shl(bits + 1).map_or(core::u128::MAX, |v| v - 1);
        let upper_start = upper_stop - (1 << (log2_tests_per_bit - 3)) + 1;

        for divisor in lower_start..lower_stop {
            check_divisor_128(divisor);
        }
        for divisor in upper_start..=upper_stop {
            check_divisor_128(divisor);
        }

        let random_count = 1 << log2_tests_per_bit;
        let dist = Uniform::new(lower_stop + 1, upper_start);
        for _ in 0..random_count {
            let divisor = dist.sample(&mut gen);
            check_divisor_128(divisor);
        }
    }
}

#[test]
fn max_256_by_boundary_divisors() {
    for divisor in [1u128, 2, 3, 7, u32::MAX as u128, u32::MAX as u128 + 1, u64::MAX as u128, u64::MAX as u128 + 1, u128::MAX - 1, u128::MAX] {
        check_divisor_128(divisor);
    }
}

#[test]
fn max_256_by_three_exact_value() {
    // (2^256 - 1) / 3 is 0x5555...5555 in all 256 bits
    let (hi, lo) = divide_256_max_by_128(3);
    assert_eq!(hi, 0x5555_5555_5555_5555_5555_5555_5555_5555);
    assert_eq!(lo, 0x5555_5555_5555_5555_5555_5555_5555_5555);
}

#[test]
fn max_128_by_64_matches_native() {
    let mut gen = StdRng::seed_from_u64(17);
    let dist = Uniform::new_inclusive(1u64, u64::MAX);
    for divisor in [1u64, 2, 3, 5, 7, u32::MAX as u64, u32::MAX as u64 + 1, u64::MAX - 1, u64::MAX] {
        assert_eq!(divide_128_max_by_64(divisor), u128::MAX / divisor as u128);
    }
    for _ in 0..10_000 {
        let divisor = dist.sample(&mut gen);
        assert_eq!(divide_128_max_by_64(divisor), u128::MAX / divisor as u128);
    }
}

#[test]
fn divide_128_matches_native() {
    let mut gen = StdRng::seed_from_u64(99);
    let any = Uniform::new_inclusive(0u128, u128::MAX);
    let edges = [1u128, 2, 3, u32::MAX as u128, u64::MAX as u128, u64::MAX as u128 + 1, (1u128 << 100) + 12345, u128::MAX - 1, u128::MAX];
    for &divisor in &edges {
        for &numerator in &[0u128, 1, 2, u64::MAX as u128, u128::MAX - 1, u128::MAX] {
            assert_eq!(divide_128(numerator, divisor), numerator / divisor, "{}/{}", numerator, divisor);
        }
    }
    for _ in 0..20_000 {
        let numerator = any.sample(&mut gen);
        let shift = Uniform::new(0u32, 128).sample(&mut gen);
        let divisor = (any.sample(&mut gen) >> shift).max(1);
        assert_eq!(divide_128(numerator, divisor), numerator / divisor, "{}/{}", numerator, divisor);
    }
}

#[test]
fn divide_128_by_64_and_32_helpers_match_native() {
    let mut gen = StdRng::seed_from_u64(7);
    for _ in 0..20_000 {
        let divisor = Uniform::new_inclusive(1u64, u64::MAX).sample(&mut gen);
        let upper = Uniform::new(0u64, divisor).sample(&mut gen);
        let lower = Uniform::new_inclusive(0u64, u64::MAX).sample(&mut gen);
        let numerator = ((upper as u128) << 64) | lower as u128;
        assert_eq!(divide_128_by_64_helper(numerator, divisor) as u128, numerator / divisor as u128);

        let small = Uniform::new_inclusive(1u32, u32::MAX).sample(&mut gen);
        let upper = Uniform::new(0u64, small as u64).sample(&mut gen);
        let numerator = ((upper as u128) << 64) | lower as u128;
        assert_eq!(divide_128_by_32_helper(numerator, small) as u128, numerator / small as u128);
    }
}
