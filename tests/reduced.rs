use rand::distributions::{Distribution, Uniform};
use rand::rngs::StdRng;
use rand::SeedableRng;
use strength_reduce::selector::{select_algorithm, Algorithm};
use strength_reduce::{
    StrengthReducedU128, StrengthReducedU16, StrengthReducedU32, StrengthReducedU64,
    StrengthReducedU8, StrengthReducedUsize,
};

#[test]
fn u8_exhaustive_division_and_remainder() {
    for divisor in 1..=u8::MAX {
        let reduced = StrengthReducedU8::new(divisor);
        assert_eq!(reduced.get(), divisor);
        for numerator in 0..=u8::MAX {
            assert_eq!(StrengthReducedU8::div(numerator, reduced), numerator / divisor);
            assert_eq!(StrengthReducedU8::rem(numerator, reduced), numerator % divisor);
            assert_eq!(StrengthReducedU8::div_rem(numerator, reduced), (numerator / divisor, numerator % divisor));
        }
    }
}

#[test]
fn u16_every_divisor_with_edge_numerators() {
    let numerators = [0u16, 1, 2, 3, 255, 256, 32767, 32768, u16::MAX - 1, u16::MAX];
    for divisor in 1..=u16::MAX {
        let reduced = StrengthReducedU16::new(divisor);
        for &numerator in &numerators {
            assert_eq!(StrengthReducedU16::div_rem(numerator, reduced), (numerator / divisor, numerator % divisor));
        }
    }
}

#[test]
fn u16_every_numerator_with_sampled_divisors() {
    let mut gen = StdRng::seed_from_u64(16);
    let mut divisors = vec![1u16, 2, 3, 7, 255, 256, 257, u16::MAX - 1, u16::MAX];
    for _ in 0..200 {
        divisors.push(Uniform::new_inclusive(1u16, u16::MAX).sample(&mut gen));
    }
    for &divisor in &divisors {
        let reduced = StrengthReducedU16::new(divisor);
        for numerator in 0..=u16::MAX {
            assert_eq!(StrengthReducedU16::div(numerator, reduced), numerator / divisor);
            assert_eq!(StrengthReducedU16::rem(numerator, reduced), numerator % divisor);
        }
    }
}

#[test]
fn u32_u64_u128_random_equivalence() {
    let mut gen = StdRng::seed_from_u64(5);
    for _ in 0..20_000 {
        let shift = Uniform::new(0u32, 32).sample(&mut gen);
        let d32 = (Uniform::new_inclusive(1u32, u32::MAX).sample(&mut gen) >> shift).max(1);
        let n32 = Uniform::new_inclusive(0u32, u32::MAX).sample(&mut gen);
        assert_eq!(StrengthReducedU32::div_rem(n32, StrengthReducedU32::new(d32)), (n32 / d32, n32 % d32));

        let shift = Uniform::new(0u32, 64).sample(&mut gen);
        let d64 = (Uniform::new_inclusive(1u64, u64::MAX).sample(&mut gen) >> shift).max(1);
        let n64 = Uniform::new_inclusive(0u64, u64::MAX).sample(&mut gen);
        let r64 = StrengthReducedU64::new(d64);
        assert_eq!(StrengthReducedU64::div(n64, r64), n64 / d64);
        assert_eq!(StrengthReducedU64::rem(n64, r64), n64 % d64);

        let shift = Uniform::new(0u32, 128).sample(&mut gen);
        let d128 = (Uniform::new_inclusive(1u128, u128::MAX).sample(&mut gen) >> shift).max(1);
        let n128 = Uniform::new_inclusive(0u128, u128::MAX).sample(&mut gen);
        let r128 = StrengthReducedU128::new(d128);
        assert_eq!(StrengthReducedU128::div(n128, r128), n128 / d128);
        assert_eq!(StrengthReducedU128::rem(n128, r128), n128 % d128);
        assert_eq!(StrengthReducedU128::div_rem(n128, r128), (n128 / d128, n128 % d128));
    }
}

#[test]
fn wide_boundary_divisors_and_numerators() {
    let d64 = [1u64, 2, 3, u32::MAX as u64, u32::MAX as u64 + 1, u64::MAX - 1, u64::MAX];
    let n64 = [0u64, 1, 2, u64::MAX - 1, u64::MAX];
    for &d in &d64 {
        let r = StrengthReducedU64::new(d);
        for &n in &n64 {
            assert_eq!(StrengthReducedU64::div_rem(n, r), (n / d, n % d));
        }
    }
    let d128 = [1u128, 2, 3, u64::MAX as u128, u64::MAX as u128 + 1, u128::MAX - 1, u128::MAX];
    let n128 = [0u128, 1, 2, u128::MAX - 1, u128::MAX];
    for &d in &d128 {
        let r = StrengthReducedU128::new(d);
        for &n in &n128 {
            assert_eq!(StrengthReducedU128::div_rem(n, r), (n / d, n % d));
        }
    }
}

#[test]
fn div_rem_agrees_with_div_and_rem() {
    for divisor in [1u32, 3, 6, 8, 1000, u32::MAX] {
        let reduced = StrengthReducedU32::new(divisor);
        for numerator in [0u32, 1, 5, 999, 1_000_000, u32::MAX] {
            assert_eq!(
                StrengthReducedU32::div_rem(numerator, reduced),
                (StrengthReducedU32::div(numerator, reduced), StrengthReducedU32::rem(numerator, reduced))
            );
        }
    }
}

#[test]
fn power_of_two_divisor_is_a_shift() {
    for k in 0..8u32 {
        let reduced = StrengthReducedU8::new(1u8 << k);
        for numerator in 0..=u8::MAX {
            assert_eq!(StrengthReducedU8::div(numerator, reduced), numerator >> k);
        }
    }
    for k in 0..128u32 {
        let reduced = StrengthReducedU128::new(1u128 << k);
        for &numerator in &[0u128, 1, 12345, u128::MAX] {
            assert_eq!(StrengthReducedU128::div(numerator, reduced), numerator >> k);
        }
    }
}

#[test]
fn width_8_divisor_6() {
    let reduced = StrengthReducedU8::new(6);
    assert_eq!(reduced.algorithm(), Algorithm::MultiplyAndShift);
    assert_eq!(StrengthReducedU8::div(255, reduced), 42);
    assert_eq!(StrengthReducedU8::rem(255, reduced), 3);
}

#[test]
fn width_8_divisor_8() {
    let reduced = StrengthReducedU8::new(8);
    assert_eq!(reduced.algorithm(), Algorithm::ShiftOnly);
    assert_eq!(StrengthReducedU8::div(255, reduced), 31);
    assert_eq!(StrengthReducedU8::rem(255, reduced), 7);
    assert_eq!(StrengthReducedU8::div(255, reduced), 255 >> 3);
}

#[test]
fn width_8_extra_bit_divisor() {
    // For 7 the multiplier that fits in 8 bits, ceil(2^10 / 7) = 147 with a shift of 10,
    // is one bit short: it gets 209 / 7 wrong.
    let naive = |n: u32| (n * 147) >> 10;
    assert_ne!(naive(209), 209 / 7);
    let reduced = StrengthReducedU8::new(7);
    assert_eq!(reduced.algorithm(), Algorithm::ExtraMultiplyBit);
    for numerator in 0..=u8::MAX {
        assert_eq!(StrengthReducedU8::div(numerator, reduced), numerator / 7);
        assert_eq!(StrengthReducedU8::rem(numerator, reduced), numerator % 7);
    }
    assert_eq!(StrengthReducedU8::div(209, reduced), 29);
}

#[test]
fn get_returns_the_divisor() {
    assert_eq!(StrengthReducedU8::new(200).get(), 200);
    assert_eq!(StrengthReducedU16::new(300).get(), 300);
    assert_eq!(StrengthReducedU32::new(70_000).get(), 70_000);
    assert_eq!(StrengthReducedU64::new(1 << 40).get(), 1 << 40);
    assert_eq!(StrengthReducedU128::new(u128::MAX).get(), u128::MAX);
}

#[test]
fn width_8_extra_bit_is_selected_wherever_the_narrow_multiplier_fails() {
    for divisor in 1..=u8::MAX {
        let reduced = StrengthReducedU8::new(divisor);
        if divisor.is_power_of_two() {
            assert_eq!(reduced.algorithm(), Algorithm::ShiftOnly);
            continue;
        }
        let s = 7 - divisor.leading_zeros();
        let multiplier = (1u32 << (s + 8)) / divisor as u32 + 1;
        let narrow_fails = (0..=255u32).any(|n| (n * multiplier) >> (s + 8) != n / divisor as u32);
        if narrow_fails {
            assert_eq!(reduced.algorithm(), Algorithm::ExtraMultiplyBit, "divisor {}", divisor);
        } else {
            assert_ne!(reduced.algorithm(), Algorithm::ShiftOnly);
        }
        for numerator in 0..=u8::MAX {
            assert_eq!(StrengthReducedU8::div(numerator, reduced), numerator / divisor);
        }
    }
}

#[test]
fn algorithm_exact_values_across_widths() {
    // 7 at width 8: 2^10 % 7 = 2, and 7 - 2 = 5 >= 4
    assert_eq!(select_algorithm(7, 8), Algorithm::ExtraMultiplyBit);
    // 6 at width 8: 2^10 % 6 = 4, and 6 - 4 = 2 < 4
    assert_eq!(select_algorithm(6, 8), Algorithm::MultiplyAndShift);
    // 3 at width 32: 2^33 % 3 = 2, and 3 - 2 = 1 < 2
    assert_eq!(StrengthReducedU32::new(3).algorithm(), Algorithm::MultiplyAndShift);
    // 7 at width 32: 2^34 % 7 = 2^(34 mod 3) = 2, and 7 - 2 = 5 >= 4
    assert_eq!(StrengthReducedU32::new(7).algorithm(), Algorithm::ExtraMultiplyBit);
    // 7 at width 16: 2^18 % 7 = 2^(18 mod 3) = 1, and 7 - 1 = 6 >= 4
    assert_eq!(StrengthReducedU16::new(7).algorithm(), Algorithm::ExtraMultiplyBit);
    assert_eq!(StrengthReducedU64::new(1 << 63).algorithm(), Algorithm::ShiftOnly);
    assert_eq!(StrengthReducedU128::new(1 << 127).algorithm(), Algorithm::ShiftOnly);
    // 3 at width 128: 2^129 % 3 = 2, and 3 - 2 = 1 < 2
    assert_eq!(StrengthReducedU128::new(3).algorithm(), Algorithm::MultiplyAndShift);
    // 5 at width 64: 2^66 % 5 = 4, and 5 - 4 = 1 < 4
    assert_eq!(StrengthReducedU64::new(5).algorithm(), Algorithm::MultiplyAndShift);
}

#[test]
fn usize_division_and_remainder() {
    for &divisor in &[1usize, 2, 3, 10, 1 << 20, usize::MAX - 1, usize::MAX] {
        let reduced = StrengthReducedUsize::new(divisor);
        assert_eq!(reduced.get(), divisor);
        for &numerator in &[0usize, 1, 9, 12345, usize::MAX - 1, usize::MAX] {
            assert_eq!(StrengthReducedUsize::div(numerator, reduced), numerator / divisor);
            assert_eq!(StrengthReducedUsize::rem(numerator, reduced), numerator % divisor);
            assert_eq!(StrengthReducedUsize::div_rem(numerator, reduced), (numerator / divisor, numerator % divisor));
        }
    }
}
