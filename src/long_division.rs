//! Schoolbook division of numbers wider than a machine word, used to derive the
//! multipliers of the two widest reduced divisors.
use vstd::prelude::*;
use vstd::arithmetic::power2::{pow2, lemma_pow2_adds, lemma_pow2_pos, lemma2_to64};
use vstd::arithmetic::div_mod::{lemma_fundamental_div_mod, lemma_basic_div};
use crate::StrengthReducedU64;
use crate::long_multiplication::{
    digits_value, base, word_pow, lemma_digits_skip, lemma_digits_short, lemma_digits_split,
    lemma_digits_top, lemma_digits_bound, lemma_digits_zero, lemma_digits_update, lemma_word_pow,
    lemma_digit_weight, long_multiply, lemma_digits_take, lemma_word_pow_add,
};
use crate::arith::{
    lemma_above_quotient, lemma_within_quotient, lemma_division_step, lemma_digit_guess,
    lemma_scaled_quotient, lemma_quotient_product, lemma_truncated_divisor_estimate,
};
use crate::bits::{
    bit_len, lemma_bit_len_bounds, lemma_u64_leading_zeros, lemma_u64_split, lemma_u64_join,
    lemma_u128_join32, lemma_u128_join64, lemma_u128_split, lemma_u64_shift_fill,
    lemma_u64_low_mask, lemma_u64_shl, lemma_bit_len_unique, lemma_u128_shl, lemma_u128_split32, lemma_u64_shift_or, lemma_u64_power_of_two,
};

verus! {

const U32_MAX: u64 = 0xffff_ffff;

const U64_MAX: u128 = 0xffff_ffff_ffff_ffff;

/// The value of a number written as two 64-bit digits.
pub open spec fn join64(hi: int, lo: int) -> int {
    hi * 0x1_0000_0000_0000_0000 + lo
}

/// Finds the largest digit `q <= guess` with `q * divisor <= window`, given that the
/// true quotient of the window is at most `guess`.
fn settle_digit(window: u128, divisor: u128, guess: u64) -> (q: u64)
    requires
        divisor > 0,
        divisor < 0x1_0000_0000_0000_0000,
        guess <= U32_MAX,
        window / divisor <= guess,
    ensures
        q == window / divisor,
{
    let mut quotient = guess;
    assert(quotient as u128 * divisor < 0x1_0000_0000_0000_0000_0000_0000) by (nonlinear_arith)
        requires
            quotient <= 0xffff_ffff,
            divisor < 0x1_0000_0000_0000_0000,
    ;
    let mut product = quotient as u128 * divisor;
    while product > window
        invariant
            divisor > 0,
            product == quotient * divisor,
            window / divisor <= quotient,
        decreases quotient,
    {
        proof {
            lemma_above_quotient(window as int, divisor as int, quotient as int);
        }
        assert((quotient - 1) * divisor == quotient * divisor - divisor) by (nonlinear_arith);
        quotient -= 1;
        product -= divisor;
    }
    proof {
        lemma_within_quotient(window as int, divisor as int, quotient as int);
    }
    quotient
}

/// Divides a 128-bit number by a 64-bit divisor, returning the quotient as a 64-bit number
/// assumes that the divisor and numerator have both already been bit-shifted so that
/// divisor.leading_zeros() == 0
fn divide_128_by_64_preshifted(numerator_hi: u64, numerator_lo: u64, divisor: u64) -> (q: u64)
    requires
        divisor >= 0x8000_0000_0000_0000,
        numerator_hi < divisor,
    ensures
        q == join64(numerator_hi as int, numerator_lo as int) / divisor as int,
{
    proof {
        lemma_u64_split(numerator_lo);
        lemma_u64_split(divisor);
    }
    let numerator_mid = (numerator_lo >> 32) as u128;
    let numerator_low = (#[verifier::truncate] (numerator_lo as u32)) as u128;
    let divisor_full_128 = divisor as u128;
    let divisor_hi = divisor >> 32;

    // The upper digit of the quotient comes from the upper 96 bits of the numerator;
    // dividing by the divisor's upper half gives a guess that is never too small.
    proof {
        lemma_u128_join32(numerator_hi as u128, numerator_mid);
        lemma_digit_guess(numerator_hi as int, numerator_mid as int, 0x1_0000_0000, divisor as int);
    }
    let full_upper_numerator = ((numerator_hi as u128) << 32) | numerator_mid;
    let guess_hi = numerator_hi / divisor_hi;
    let quotient_hi = settle_digit(
        full_upper_numerator,
        divisor_full_128,
        if guess_hi < U32_MAX { guess_hi } else { U32_MAX },
    );
    proof {
        lemma_quotient_product(full_upper_numerator as int, divisor as int);
    }
    let remainder_hi = full_upper_numerator - quotient_hi as u128 * divisor_full_128;

    // repeat the process using the lower half of the numerator
    proof {
        lemma_u128_join32(remainder_hi, numerator_low);
        lemma_digit_guess(remainder_hi as int, numerator_low as int, 0x1_0000_0000, divisor as int);
    }
    let full_lower_numerator = (remainder_hi << 32) | numerator_low;
    let guess_lo = (remainder_hi as u64) / divisor_hi;
    let quotient_lo = settle_digit(
        full_lower_numerator,
        divisor_full_128,
        if guess_lo < U32_MAX { guess_lo } else { U32_MAX },
    );

    proof {
        lemma_u64_join(quotient_hi, quotient_lo);
        lemma_division_step(
            full_upper_numerator as int,
            numerator_low as int,
            0x1_0000_0000,
            divisor as int,
        );
        assert(join64(numerator_hi as int, numerator_lo as int) == full_upper_numerator
            * 0x1_0000_0000 + numerator_low);
    }
    (quotient_hi << 32) | quotient_lo
}

/// The quotient of the largest 128-bit number by a non-zero 64-bit divisor.
pub fn divide_128_max_by_64(divisor: u64) -> (q: u128)
    requires
        divisor > 0,
    ensures
        q == u128::MAX as int / divisor as int,
{
    let quotient_hi = u64::MAX / divisor;
    proof {
        lemma_quotient_product(u64::MAX as int, divisor as int);
    }
    let remainder_hi = u64::MAX - quotient_hi * divisor;
    proof {
        lemma_fundamental_div_mod(u64::MAX as int, divisor as int);
        lemma_division_step(u64::MAX as int, u64::MAX as int, 0x1_0000_0000_0000_0000, divisor as int);
    }
    assert(remainder_hi == u64::MAX as int % divisor as int);
    let leading_zeros = divisor.leading_zeros();
    proof {
        lemma_u64_leading_zeros(divisor);
        lemma_bit_len_bounds(divisor as nat);
        lemma2_to64();
        vstd::arithmetic::power2::lemma2_to64_rest();
    }
    let quotient_lo = if leading_zeros >= 32 {
        proof {
            if bit_len(divisor as nat) > 32 {
                vstd::arithmetic::power2::lemma_pow2_strictly_increases(32, (bit_len(divisor as nat) - 1) as nat);
            }
            lemma_pow2_adds((bit_len(divisor as nat) - 1) as nat, 0);
            if bit_len(divisor as nat) < 32 {
                vstd::arithmetic::power2::lemma_pow2_strictly_increases(bit_len(divisor as nat), 32);
            }
            lemma_u64_join(remainder_hi, U32_MAX);
            lemma_division_step(remainder_hi as int, U32_MAX as int, 0x1_0000_0000, divisor as int);
            lemma_basic_div(remainder_hi as int, divisor as int);
            vstd::arithmetic::div_mod::lemma_small_mod(remainder_hi as nat, divisor as nat);
        }
        assert(divisor < 0x1_0000_0000);
        let numerator_mid = (remainder_hi << 32) | U32_MAX;
        let quotient_mid = numerator_mid / divisor;
        proof {
            lemma_quotient_product(numerator_mid as int, divisor as int);
        }
        let remainder_mid = numerator_mid - quotient_mid * divisor;
        proof {
            lemma_fundamental_div_mod(numerator_mid as int, divisor as int);
            lemma_u64_join(remainder_mid, U32_MAX);
            lemma_division_step(remainder_mid as int, U32_MAX as int, 0x1_0000_0000, divisor as int);
            lemma_basic_div(remainder_mid as int, divisor as int);
            vstd::arithmetic::div_mod::lemma_small_mod(remainder_mid as nat, divisor as nat);
        }
        let numerator_lo = (remainder_mid << 32) | U32_MAX;
        let quotient_lo = numerator_lo / divisor;
        proof {
            lemma_u64_join(quotient_mid, quotient_lo);
            lemma_division_step(numerator_mid as int, U32_MAX as int, 0x1_0000_0000, divisor as int);
            assert(remainder_hi * 0x1_0000_0000_0000_0000 + u64::MAX == numerator_mid
                * 0x1_0000_0000 + U32_MAX);
        }
        (quotient_mid << 32) | quotient_lo
    } else {
        let shift = leading_zeros as u64;
        let ghost p = pow2(shift as nat) as int;
        proof {
            lemma_pow2_pos(shift as nat);
            assert((bit_len(divisor as nat) - 1) as nat + shift as nat == 63);
            assert(bit_len(divisor as nat) + shift as nat == 64);
            lemma_pow2_adds((bit_len(divisor as nat) - 1) as nat, shift as nat);
            lemma_pow2_adds(bit_len(divisor as nat), shift as nat);
            assert(divisor * p < 0x1_0000_0000_0000_0000) by (nonlinear_arith)
                requires
                    divisor < pow2(bit_len(divisor as nat)),
                    p > 0,
                    pow2(bit_len(divisor as nat)) * p == 0x1_0000_0000_0000_0000,
            ;
            assert(divisor * p >= 0x8000_0000_0000_0000) by (nonlinear_arith)
                requires
                    divisor >= pow2((bit_len(divisor as nat) - 1) as nat),
                    p > 0,
                    pow2((bit_len(divisor as nat) - 1) as nat) * p == 0x8000_0000_0000_0000,
            ;
            assert(remainder_hi * p < divisor * p) by (nonlinear_arith)
                requires
                    remainder_hi < divisor,
                    p > 0,
            ;
            lemma_u64_shl(divisor, shift);
            lemma_u64_shl(remainder_hi, shift);
        }
        let numerator_hi = if leading_zeros > 0 {
            proof {
                lemma_u64_shift_fill(remainder_hi, shift);
                lemma_u64_low_mask(shift);
            }
            let filled = (remainder_hi << shift) | (u64::MAX >> (64 - shift));
            assert(filled == remainder_hi * p + p - 1);
            filled
        } else {
            assert(p == 1);
            assert(remainder_hi == remainder_hi * p + p - 1) by (nonlinear_arith)
                requires
                    p == 1,
            ;
            remainder_hi
        };
        let numerator_lo = u64::MAX << shift;
        proof {
            if shift > 0 {
                lemma_u64_shift_fill(remainder_hi, shift);
                lemma_u64_low_mask(shift);
            } else {
                assert(u64::MAX << 0u64 == u64::MAX) by (bit_vector);
            }
            assert(numerator_hi == remainder_hi * p + p - 1);
            assert(numerator_lo == 0x1_0000_0000_0000_0000 - p);
            assert(numerator_hi < divisor * p) by (nonlinear_arith)
                requires
                    numerator_hi == remainder_hi * p + p - 1,
                    remainder_hi + 1 <= divisor,
                    p > 0,
            ;
            assert(join64(numerator_hi as int, numerator_lo as int) == join64(remainder_hi as int, u64::MAX as int) * p) by (nonlinear_arith)
                requires
                    numerator_hi == remainder_hi * p + p - 1,
                    numerator_lo == 0x1_0000_0000_0000_0000 - p,
            ;
            lemma_scaled_quotient(join64(remainder_hi as int, u64::MAX as int), divisor as int, p);
        }
        divide_128_by_64_preshifted(numerator_hi, numerator_lo, divisor << shift)
    };
    proof {
        lemma_u128_join64(quotient_hi as u128, quotient_lo as u128);
    }
    ((quotient_hi as u128) << 64) | (quotient_lo as u128)
}


/// Divides the number held in `numerator_slice` by a divisor below 2^32, writing the
/// quotient's digits to `quotient`.
fn long_division(numerator_slice: &[u64], reduced_divisor: &StrengthReducedU64, quotient: &mut [u64])
    requires
        old(quotient)@.len() == numerator_slice@.len(),
        0 < reduced_divisor@ < 0x1_0000_0000,
    ensures
        final(quotient)@.len() == numerator_slice@.len(),
        digits_value(final(quotient)@) == digits_value(numerator_slice@) / reduced_divisor@ as int,
{
    let ghost d = reduced_divisor@ as int;
    let mut remainder: u64 = 0;
    let mut i: usize = numerator_slice.len();
    assert(numerator_slice@.skip(i as int).len() == 0 && quotient@.skip(i as int).len() == 0);
    while i > 0
        invariant
            i <= numerator_slice@.len(),
            quotient@.len() == numerator_slice@.len(),
            d == reduced_divisor@,
            0 < d < 0x1_0000_0000,
            remainder < d,
            digits_value(numerator_slice@.skip(i as int)) == digits_value(quotient@.skip(i as int))
                * d + remainder,
        decreases i,
    {
        i = i - 1;
        let numerator_element = numerator_slice[i];
        let ghost before = quotient@;
        let ghost old_rem = remainder as int;
        let digit_quotient: u64;
        let digit_remainder: u64;
        proof {
            lemma_u64_split(numerator_element);
        }
        if remainder > 0 {
            // Do one division that includes the running remainder and the upper half of
            // this numerator element, then a second division for the first division's
            // remainder combined with the lower half
            proof {
                lemma_u64_join(remainder, numerator_element / 0x1_0000_0000);
                lemma_division_step(remainder as int, (numerator_element / 0x1_0000_0000) as int, 0x1_0000_0000, d);
                lemma_basic_div(remainder as int, d);
                vstd::arithmetic::div_mod::lemma_small_mod(remainder as nat, d as nat);
            }
            let upper_numerator = (remainder << 32) | (numerator_element >> 32);
            let (upper_quotient, upper_remainder) = StrengthReducedU64::div_rem(upper_numerator, *reduced_divisor);
            proof {
                lemma_u64_join(upper_remainder, numerator_element % 0x1_0000_0000);
                lemma_division_step(upper_remainder as int, (numerator_element % 0x1_0000_0000) as int, 0x1_0000_0000, d);
                lemma_basic_div(upper_remainder as int, d);
                vstd::arithmetic::div_mod::lemma_small_mod(upper_remainder as nat, d as nat);
            }
            let lower_numerator = (upper_remainder << 32) | (#[verifier::truncate] (numerator_element as u32) as u64);
            let (lower_quotient, lower_remainder) = StrengthReducedU64::div_rem(lower_numerator, *reduced_divisor);
            proof {
                lemma_u64_join(upper_quotient, lower_quotient);
                lemma_division_step(upper_numerator as int, (numerator_element % 0x1_0000_0000) as int, 0x1_0000_0000, d);
                lemma_division_step(remainder as int, numerator_element as int, 0x1_0000_0000_0000_0000, d);
                assert(remainder * 0x1_0000_0000_0000_0000 + numerator_element == upper_numerator * 0x1_0000_0000 + numerator_element % 0x1_0000_0000);
                vstd::arithmetic::div_mod::lemma_fundamental_div_mod(lower_numerator as int, d);
                vstd::arithmetic::div_mod::lemma_fundamental_div_mod(remainder * 0x1_0000_0000_0000_0000 + numerator_element, d);
                vstd::arithmetic::div_mod::lemma_fundamental_div_mod(upper_numerator as int, d);
                vstd::arithmetic::div_mod::lemma_fundamental_div_mod(upper_numerator * 0x1_0000_0000 + numerator_element % 0x1_0000_0000, d);
            }
            digit_quotient = (upper_quotient << 32) | lower_quotient;
            digit_remainder = lower_remainder;
            assert(digit_quotient * d == upper_quotient * d * 0x1_0000_0000 + lower_quotient * d) by (nonlinear_arith)
                requires
                    digit_quotient == upper_quotient * 0x1_0000_0000 + lower_quotient,
            ;
            assert(upper_quotient * d * 0x1_0000_0000 == (upper_numerator - upper_remainder) * 0x1_0000_0000) by (nonlinear_arith)
                requires
                    upper_numerator == d * upper_quotient + upper_remainder,
            ;
            assert(lower_quotient * d == lower_numerator - lower_remainder) by (nonlinear_arith)
                requires
                    lower_numerator == d * lower_quotient + lower_remainder,
            ;
        } else {
            // The remainder is zero, so a single division does
            let (q, r) = StrengthReducedU64::div_rem(numerator_element, *reduced_divisor);
            proof {
                vstd::arithmetic::div_mod::lemma_fundamental_div_mod(numerator_element as int, d);
            }
            digit_quotient = q;
            digit_remainder = r;
            assert(digit_quotient * d + digit_remainder == remainder * 0x1_0000_0000_0000_0000
                + numerator_element) by (nonlinear_arith)
                requires
                    numerator_element == d * digit_quotient + digit_remainder,
                    remainder == 0,
            ;
        }
        quotient[i] = digit_quotient;
        remainder = digit_remainder;
        proof {
            vstd::arithmetic::div_mod::lemma_fundamental_div_mod(digit_remainder as int, d);
            lemma_digits_skip(numerator_slice@, i as int);
            lemma_digits_skip(quotient@, i as int);
            assert(quotient@.skip(i + 1) =~= before.skip(i + 1));
            assert(digits_value(numerator_slice@.skip(i as int)) == digits_value(quotient@.skip(i as int)) * d + remainder) by (nonlinear_arith)
                requires
                    digits_value(numerator_slice@.skip(i as int)) == numerator_element + base() * digits_value(numerator_slice@.skip(i + 1)),
                    digits_value(quotient@.skip(i as int)) == digit_quotient + base() * digits_value(quotient@.skip(i + 1)),
                    digits_value(numerator_slice@.skip(i + 1)) == digits_value(quotient@.skip(i + 1)) * d + old_rem,
                    digit_quotient * d + digit_remainder == old_rem * base() + numerator_element,
                    remainder == digit_remainder,
            ;
        }
    }
    proof {
        assert(numerator_slice@.skip(0) =~= numerator_slice@);
        assert(quotient@.skip(0) =~= quotient@);
        vstd::arithmetic::div_mod::lemma_fundamental_div_mod_converse(
            digits_value(numerator_slice@),
            d,
            digits_value(quotient@),
            remainder as int,
        );
    }
}


/// The number of zero bits above the highest set bit of `x`.
pub(crate) fn leading_zeros_u128(x: u128) -> (r: u32)
    ensures
        bit_len(x as nat) <= 128,
        r == 128 - bit_len(x as nat),
{
    proof {
        lemma_u128_split(x);
        lemma2_to64();
    }
    let hi = (x >> 64) as u64;
    let lo = #[verifier::truncate] (x as u64);
    proof {
        lemma_u64_leading_zeros(hi);
        lemma_u64_leading_zeros(lo);
        vstd::arithmetic::power2::lemma2_to64_rest();
    }
    if hi != 0 {
        proof {
            let k = bit_len(hi as nat);
            lemma_bit_len_bounds(hi as nat);
            lemma_pow2_adds((k - 1) as nat, 64);
            lemma_pow2_adds(k, 64);
            assert(pow2(((k - 1) as nat + 64) as nat) <= x) by (nonlinear_arith)
                requires
                    pow2(((k - 1) as nat + 64) as nat) == pow2((k - 1) as nat) * 0x1_0000_0000_0000_0000,
                    pow2((k - 1) as nat) <= hi,
                    x == hi * 0x1_0000_0000_0000_0000 + lo,
                    lo >= 0,
            ;
            assert(x < pow2(k + 64)) by (nonlinear_arith)
                requires
                    pow2(k + 64) == pow2(k) * 0x1_0000_0000_0000_0000,
                    hi + 1 <= pow2(k),
                    x == hi * 0x1_0000_0000_0000_0000 + lo,
                    lo < 0x1_0000_0000_0000_0000,
            ;
            lemma_bit_len_unique(x as nat, k + 64);
        }
        hi.leading_zeros()
    } else {
        assert(x == lo);
        64 + lo.leading_zeros()
    }
}

/// The number of zero bits below the single set bit of `x`: the exponent of the power
/// of two that `x` is.
pub(crate) fn trailing_zeros_u128(x: u128) -> (r: u32)
    requires
        x != 0,
        x & ((x - 1) as u128) == 0,
    ensures
        r < 128,
        x == pow2(r as nat),
{
    proof {
        lemma_u128_split(x);
        crate::bits::lemma_u128_single_bit_halves(x);
        lemma2_to64();
    }
    let lo = #[verifier::truncate] (x as u64);
    if lo != 0 {
        proof {
            lemma_u64_power_of_two(lo, 0);
        }
        lo.trailing_zeros()
    } else {
        let hi = (x >> 64) as u64;
        proof {
            lemma_u64_power_of_two(hi, 0);
            lemma_pow2_adds(64, vstd::std_specs::bits::u64_trailing_zeros(hi) as nat);
        }
        64 + hi.trailing_zeros()
    }
}

/// Divides a 128-bit number by a 64-bit divisor, returning the quotient as a 64-bit number
/// assumes that the divisor and numerator have both already been bit-shifted to maximize
/// the number of bits in divisor_hi
/// divisor_hi holds the upper 32 bits of divisor_full, reduced for repeated division
fn divide_128_by_64_preshifted_reduced(
    numerator_hi: u64,
    numerator_lo: u64,
    divisor_hi: StrengthReducedU64,
    divisor_full: u64,
) -> (q: u64)
    requires
        divisor_full >= 0x8000_0000_0000_0000,
        numerator_hi < divisor_full,
        divisor_hi@ == divisor_full / 0x1_0000_0000,
    ensures
        q == join64(numerator_hi as int, numerator_lo as int) / divisor_full as int,
{
    proof {
        lemma_u64_split(numerator_lo);
        lemma_u64_split(divisor_full);
    }
    let numerator_mid = (numerator_lo >> 32) as u128;
    let numerator_low = (#[verifier::truncate] (numerator_lo as u32)) as u128;
    let divisor_full_128 = divisor_full as u128;

    proof {
        lemma_u128_join32(numerator_hi as u128, numerator_mid);
        lemma_digit_guess(numerator_hi as int, numerator_mid as int, 0x1_0000_0000, divisor_full as int);
    }
    let full_upper_numerator = ((numerator_hi as u128) << 32) | numerator_mid;
    let guess_hi = StrengthReducedU64::div(numerator_hi, divisor_hi);
    let quotient_hi = settle_digit(
        full_upper_numerator,
        divisor_full_128,
        if guess_hi < U32_MAX { guess_hi } else { U32_MAX },
    );
    proof {
        lemma_quotient_product(full_upper_numerator as int, divisor_full as int);
    }
    let full_upper_remainder = full_upper_numerator - quotient_hi as u128 * divisor_full_128;

    // repeat the process using the lower half of the numerator
    proof {
        lemma_u128_join32(full_upper_remainder, numerator_low);
        lemma_digit_guess(full_upper_remainder as int, numerator_low as int, 0x1_0000_0000, divisor_full as int);
    }
    let full_lower_numerator = (full_upper_remainder << 32) | numerator_low;
    let guess_lo = StrengthReducedU64::div(full_upper_remainder as u64, divisor_hi);
    let quotient_lo = settle_digit(
        full_lower_numerator,
        divisor_full_128,
        if guess_lo < U32_MAX { guess_lo } else { U32_MAX },
    );

    proof {
        lemma_u64_join(quotient_hi, quotient_lo);
        lemma_division_step(
            full_upper_numerator as int,
            numerator_low as int,
            0x1_0000_0000,
            divisor_full as int,
        );
    }
    (quotient_hi << 32) | quotient_lo
}

/// Length of `input` without its most significant zero digits.
pub(crate) fn normalize_slice(input: &[u64]) -> (r: usize)
    ensures
        r <= input@.len(),
        forall|k: int| r <= k < input@.len() ==> input@[k] == 0,
        r == 0 || input@[r - 1] != 0,
        digits_value(input@.take(r as int)) == digits_value(input@),
{
    let mut r = input.len();
    while r > 0 && input[r - 1] == 0
        invariant
            r <= input@.len(),
            forall|k: int| r <= k < input@.len() ==> input@[k] == 0,
        decreases r,
    {
        r = r - 1;
    }
    proof {
        lemma_digits_top(input@, r as int);
    }
    r
}

/// Whether the number in `a` exceeds the number in `b`. Digits of equal length are
/// compared from the top, so zero top digits are allowed there; digits of different
/// lengths are compared by length, so neither may then have a zero top digit.
pub(crate) fn is_slice_greater(a: &[u64], b: &[u64]) -> (r: bool)
    requires
        a@.len() == b@.len() || ((a@.len() == 0 || a@.last() != 0) && (b@.len() == 0
            || b@.last() != 0)),
    ensures
        r == (digits_value(a@) > digits_value(b@)),
{
    proof {
        lemma_digits_top(a@, a@.len() as int);
        lemma_digits_top(b@, b@.len() as int);
    }
    if a.len() > b.len() {
        proof {
            lemma_word_pow(b@.len() as nat, (a@.len() - 1) as nat);
        }
        return true;
    }
    if b.len() > a.len() {
        proof {
            lemma_word_pow(a@.len() as nat, (b@.len() - 1) as nat);
        }
        return false;
    }
    let mut i = a.len();
    assert(a@.skip(i as int) =~= b@.skip(i as int));
    while i > 0
        invariant
            i <= a@.len(),
            a@.len() == b@.len(),
            a@.skip(i as int) =~= b@.skip(i as int),
        decreases i,
    {
        i = i - 1;
        let ai = a[i];
        let bi = b[i];
        if ai < bi {
            proof {
                lemma_digits_order(a@, b@, i as int);
            }
            return false;
        }
        if ai > bi {
            proof {
                lemma_digits_order(b@, a@, i as int);
            }
            return true;
        }
        assert(a@.skip(i as int) =~= b@.skip(i as int)) by {
            assert(a@.skip(i as int) =~= seq![ai].add(a@.skip(i + 1)));
            assert(b@.skip(i as int) =~= seq![bi].add(b@.skip(i + 1)));
        }
    }
    assert(a@ =~= b@) by {
        assert(a@.skip(0) =~= a@);
        assert(b@.skip(0) =~= b@);
    }
    false
}

/// Two numbers of equal length that agree above digit `j` and differ there are
/// ordered as that digit is.
pub proof fn lemma_digits_order(a: Seq<u64>, b: Seq<u64>, j: int)
    requires
        a.len() == b.len(),
        0 <= j < a.len(),
        a.skip(j + 1) =~= b.skip(j + 1),
        a[j] < b[j],
    ensures
        digits_value(a) < digits_value(b),
{
    lemma_digits_split(a, j);
    lemma_digits_split(b, j);
    lemma_digits_skip(a, j);
    lemma_digits_skip(b, j);
    lemma_digits_bound(a.take(j));
    lemma_digits_bound(b.take(j));
    assert(a.take(j).len() == j && b.take(j).len() == j);
    let w = word_pow(j as nat);
    let rest = digits_value(a.skip(j + 1));
    assert(w * (a[j] + base() * rest) + w <= w * (b[j] + base() * rest)) by (nonlinear_arith)
        requires
            a[j] + 1 <= b[j],
            w > 0,
    ;
}

/// One step of a borrowed subtraction: a digit minus what is taken, with the incoming
/// borrow, becomes the new digit and the outgoing borrow, one weight higher.
proof fn lemma_borrow_step(t: int, borrow: int, digit: int, taken: int, new_digit: int, new_borrow: int, w: int)
    requires
        t == borrow + digit - taken,
        new_digit == t - new_borrow * base(),
    ensures
        (new_digit - digit) * w + new_borrow * (base() * w) - borrow * w + taken * w == 0,
{
    assert((new_digit - digit) * w + new_borrow * (base() * w) - borrow * w + taken * w == 0) by (nonlinear_arith)
        requires
            t == borrow + digit - taken,
            new_digit == t - new_borrow * base(),
    ;
}

/// Subtracts `b * base()^offset` from the number held in `a`.
pub(crate) fn sub_assign(a: &mut [u64], offset: usize, b: &[u64])
    requires
        offset + b.len() <= old(a).len(),
        digits_value(b@) * word_pow(offset as nat) <= digits_value(old(a)@),
    ensures
        final(a)@.len() == old(a)@.len(),
        digits_value(final(a)@) == digits_value(old(a)@) - digits_value(b@) * word_pow(offset as nat),
{
    let ghost start = a@;
    let ghost w0 = word_pow(offset as nat);
    proof {
        lemma_word_pow(offset as nat, offset as nat);
    }
    let mut borrow: i128 = 0;
    let mut i: usize = 0;
    assert(b@.take(0) =~= Seq::<u64>::empty());
    assert(digits_value(b@.take(0)) * w0 == 0) by (nonlinear_arith)
        requires
            digits_value(b@.take(0)) == 0,
    ;
    // subtract b from a, keeping track of borrows as we go
    while i < b.len()
        invariant
            i <= b.len(),
            offset + b.len() <= a@.len(),
            a@.len() == start.len(),
            borrow == 0 || borrow == -1,
            w0 == word_pow(offset as nat),
            w0 > 0,
            digits_value(a@) + borrow * word_pow((offset + i) as nat) == digits_value(start)
                - digits_value(b@.take(i as int)) * w0,
        decreases b.len() - i,
    {
        let k = offset + i;
        let ghost before = a@;
        let ghost w = word_pow(k as nat);
        let t: i128 = borrow + a[k] as i128 - b[i] as i128;
        let new_borrow: i128 = if t < 0 { -1 } else { 0 };
        let new_digit = (t - new_borrow * 0x1_0000_0000_0000_0000) as u64;
        assert(new_digit == t - new_borrow * 0x1_0000_0000_0000_0000);
        proof {
            lemma_borrow_step(t as int, borrow as int, a[k as int] as int, b[i as int] as int, new_digit as int, new_borrow as int, w);
            lemma_digits_update(before, k as int, new_digit);
            lemma_digits_take(b@, i as int);
            lemma_word_pow_add(offset as nat, i as nat);
            assert(word_pow((k + 1) as nat) == base() * w);
            assert(digits_value(b@.take(i + 1)) * w0 == digits_value(b@.take(i as int)) * w0 + b[i as int] * w) by (nonlinear_arith)
                requires
                    digits_value(b@.take(i + 1)) == digits_value(b@.take(i as int)) + b[i as int] * word_pow(i as nat),
                    w == word_pow(offset as nat) * word_pow(i as nat),
                    w0 == word_pow(offset as nat),
            ;
        }
        a[k] = new_digit;
        borrow = new_borrow;
        i = i + 1;
    }
    // We're done subtracting, we just need to finish borrowing
    assert(b@.take(b.len() as int) =~= b@);
    let mut k: usize = offset + b.len();
    while borrow != 0
        invariant
            offset + b.len() <= k <= a@.len(),
            a@.len() == start.len(),
            borrow == 0 || borrow == -1,
            digits_value(a@) + borrow * word_pow(k as nat) == digits_value(start) - digits_value(b@)
                * w0,
            digits_value(b@) * w0 <= digits_value(start),
        decreases a@.len() - k,
    {
        proof {
            lemma_digits_bound(a@);
            if k >= a@.len() {
                lemma_word_pow(a@.len() as nat, k as nat);
            }
        }
        let ghost before = a@;
        let ghost w = word_pow(k as nat);
        let t: i128 = borrow + a[k] as i128;
        let new_borrow: i128 = if t < 0 { -1 } else { 0 };
        let new_digit = (t - new_borrow * 0x1_0000_0000_0000_0000) as u64;
        proof {
            lemma_borrow_step(t as int, borrow as int, a[k as int] as int, 0, new_digit as int, new_borrow as int, w);
            lemma_digits_update(before, k as int, new_digit);
            assert(word_pow((k + 1) as nat) == base() * w);
        }
        a[k] = new_digit;
        borrow = new_borrow;
        k = k + 1;
    }
}

/// Divides the largest 256-bit number by a divisor below 2^32, returning the quotient
/// as its upper and lower 128 bits
fn divide_256_max_by_32(divisor: u32) -> (r: (u128, u128))
    requires
        divisor > 0,
    ensures
        r.0 * 0x1_0000_0000_0000_0000_0000_0000_0000_0000 + r.1 == (word_pow(4) - 1) / divisor as int,
{
    let reduced_divisor = StrengthReducedU64::new(divisor as u64);
    let numerator_chunks = [u64::MAX; 4];
    let mut quotient_chunks = [0u64; 4];
    proof {
        lemma_digits_short(numerator_chunks@);
        reveal_with_fuel(word_pow, 5);
        assert(digits_value(numerator_chunks@) == word_pow(4) - 1);
    }
    long_division(&numerator_chunks, &reduced_divisor, &mut quotient_chunks);

    // quotient_chunks now contains the quotient; recombine it into u128s
    let q = quotient_chunks;
    proof {
        lemma_digits_short(q@);
        lemma_u128_join64(q[1] as u128, q[0] as u128);
        lemma_u128_join64(q[3] as u128, q[2] as u128);
        reveal_with_fuel(word_pow, 5);
        assert(digits_value(q@) == (word_pow(4) - 1) / divisor as int);
        assert(q[0] + q[1] * base() + q[2] * (base() * base()) + q[3] * (base() * base() * base())
            == (q[3] * 0x1_0000_0000_0000_0000 + q[2]) * 0x1_0000_0000_0000_0000_0000_0000_0000_0000
            + (q[1] * 0x1_0000_0000_0000_0000 + q[0])) by (nonlinear_arith)
            requires
                base() == 0x1_0000_0000_0000_0000,
        ;
    }
    let quotient_lo = ((q[1] as u128) << 64) | (q[0] as u128);
    let quotient_hi = ((q[3] as u128) << 64) | (q[2] as u128);
    (quotient_hi, quotient_lo)
}


/// The digits of `s` from `qi` up to `m`, above which all digits are zero, form a window
/// that stands above the digits below `qi`.
proof fn lemma_window(s: Seq<u64>, qi: int, m: int)
    requires
        0 <= qi <= m <= s.len(),
        forall|k: int| m <= k < s.len() ==> s[k] == 0,
    ensures
        digits_value(s) == digits_value(s.take(qi)) + word_pow(qi as nat) * digits_value(
            s.subrange(qi, m),
        ),
        0 <= digits_value(s.take(qi)) < word_pow(qi as nat),
        digits_value(s.subrange(qi, m)) >= 0,
{
    lemma_digits_split(s, qi);
    let t = s.skip(qi);
    lemma_digits_top(t, m - qi);
    assert(t.take(m - qi) =~= s.subrange(qi, m));
    lemma_digits_bound(s.take(qi));
    lemma_digits_bound(s.subrange(qi, m));
}

/// A window of at most `n + 1` digits is its top two digits above its lower `n - 1`.
proof fn lemma_window_top(w: Seq<u64>, n: int, hi: u64, lo: u64)
    requires
        1 <= n,
        n - 1 < w.len() <= n + 1,
        lo == w[n - 1],
        hi == if w.len() > n {
            w[n]
        } else {
            0
        },
    ensures
        digits_value(w) == digits_value(w.take(n - 1)) + word_pow((n - 1) as nat) * (hi * base()
            + lo),
        0 <= digits_value(w.take(n - 1)) < word_pow((n - 1) as nat),
{
    lemma_digits_split(w, n - 1);
    lemma_digits_short(w.skip(n - 1));
    lemma_digits_bound(w.take(n - 1));
}

/// The first guess at a quotient digit, from the window's top two digits and the
/// divisor's top digit, is never below the true digit.
proof fn lemma_guess_not_below(w: int, low: int, t: int, nw: int, v: int, vtop: int)
    requires
        w == low + nw * t,
        0 <= low < nw,
        t >= 0,
        vtop > 0,
        nw > 0,
        v >= vtop * nw,
    ensures
        w / v <= t / vtop,
{
    assert(v > 0) by (nonlinear_arith)
        requires
            vtop > 0,
            nw > 0,
            v >= vtop * nw,
    ;
    assert(w >= 0) by (nonlinear_arith)
        requires
            w == low + nw * t,
            low >= 0,
            nw > 0,
            t >= 0,
    ;
    let q = w / v;
    lemma_quotient_product(w, v);
    assert(q * vtop <= t) by (nonlinear_arith)
        requires
            q * v <= w,
            v >= vtop * nw,
            w == low + nw * t,
            low < nw,
            nw > 0,
            q >= 0,
            vtop > 0,
    {
        assert(q * vtop * nw <= q * v);
        assert(q * vtop * nw < (t + 1) * nw);
    }
    lemma_within_quotient(t, vtop, q);
}

/// Taking the digit's multiple of the divisor off the window leaves less than one
/// divisor at the window's weight.
proof fn lemma_window_after(r: int, low: int, wq: int, w: int, v: int)
    requires
        r == low + wq * w,
        0 <= low < wq,
        v > 0,
        w >= 0,
    ensures
        (w / v) * v * wq <= r,
        r - (w / v) * v * wq < v * wq,
{
    let q = w / v;
    lemma_quotient_product(w, v);
    assert(r - q * v * wq == low + wq * (w - q * v)) by (nonlinear_arith)
        requires
            r == low + wq * w,
    ;
    assert(0 <= wq * (w - q * v) <= wq * (v - 1)) by (nonlinear_arith)
        requires
            0 <= w - q * v <= v - 1,
            wq > 0,
    ;
    assert(wq * (v - 1) + wq == v * wq) by (nonlinear_arith);
    assert(q * v * wq >= 0) by (nonlinear_arith)
        requires
            q >= 0,
            v > 0,
            wq > 0,
    ;
}

/// The value of the digits of `s` from `qi` up to `m`; nothing when `m` is below `qi`.
pub open spec fn window_value(s: Seq<u64>, qi: int, m: int) -> int {
    if m >= qi {
        digits_value(s.subrange(qi, m))
    } else {
        0
    }
}

/// Guesses the quotient digit of a window of the numerator from its top two digits and
/// the divisor's top digit, then corrects the guess; returns the digit and its multiple
/// of the divisor, with that multiple's length
fn window_digit(
    window: &[u64],
    divisor_slice: &[u64],
    divisor_hi: u64,
    reduced_divisor_hi: StrengthReducedU64,
) -> (r: (u64, [u64; 3], usize))
    requires
        1 <= divisor_slice@.len() <= 2,
        divisor_hi == divisor_slice@[divisor_slice@.len() - 1],
        divisor_hi >= 0x8000_0000_0000_0000,
        digits_value(divisor_slice@) >= divisor_hi * word_pow((divisor_slice@.len() - 1) as nat),
        digits_value(divisor_slice@) < word_pow(divisor_slice@.len() as nat),
        reduced_divisor_hi@ == divisor_hi / 0x1_0000_0000,
        divisor_slice@.len() - 1 < window@.len(),
        window@.last() != 0,
        digits_value(window@) < digits_value(divisor_slice@) * base(),
    ensures
        r.0 == digits_value(window@) / digits_value(divisor_slice@),
        digits_value(r.1@) == r.0 * digits_value(divisor_slice@),
        r.2 <= divisor_slice@.len() + 1,
        r.2 == 0 || r.1@[r.2 - 1] != 0,
        digits_value(r.1@.subrange(0, r.2 as int)) == digits_value(r.1@),
{
    let divisor_len = divisor_slice.len();
    let ghost n = divisor_len as int;
    let ghost v = digits_value(divisor_slice@);
    let ghost w = digits_value(window@);
    proof {
        lemma_word_pow((n - 1) as nat, (n - 1) as nat);
        lemma_word_pow(n as nat, n as nat);
        assert(v > 0) by (nonlinear_arith)
            requires
                v >= divisor_hi * word_pow((n - 1) as nat),
                divisor_hi > 0,
                word_pow((n - 1) as nat) > 0,
        ;
        // the window has at most n + 1 digits
        lemma_digits_top(window@, window@.len() as int);
        if window@.len() > n + 1 {
            lemma_word_pow((n + 1) as nat, (window@.len() - 1) as nat);
            assert(v * base() <= word_pow((n + 1) as nat)) by (nonlinear_arith)
                requires
                    v < word_pow(n as nat),
                    word_pow((n + 1) as nat) == base() * word_pow(n as nat),
            ;
        }
    }
    // divide the uppermost digits of the window by the divisor's top digit to guess
    // the quotient digit
    let numerator_hi = if window.len() > divisor_len {
        window[divisor_len]
    } else {
        0
    };
    let numerator_lo = window[divisor_len - 1];
    let ghost t = numerator_hi * base() + numerator_lo;
    proof {
        lemma_window_top(window@, n, numerator_hi, numerator_lo);
        lemma_guess_not_below(
            w,
            digits_value(window@.take(n - 1)),
            t,
            word_pow((n - 1) as nat),
            v,
            divisor_hi as int,
        );
        lemma_quotient_product(w, v);
        assert(w / v < base()) by (nonlinear_arith)
            requires
                (w / v) * v <= w,
                w < v * base(),
                v > 0,
        ;
    }
    // a guess for a digit that cannot fit is capped at the largest digit
    let mut sub_quotient = if numerator_hi < divisor_hi {
        divide_128_by_64_preshifted_reduced(numerator_hi, numerator_lo, reduced_divisor_hi, divisor_hi)
    } else {
        u64::MAX
    };
    let ghost q = w / v;
    assert(sub_quotient >= q);

    let mut tmp_product = [0u64; 3];
    proof {
        lemma_digits_zero(tmp_product@);
        reveal_with_fuel(word_pow, 4);
        lemma_word_pow(n as nat, 2);
        assert(v * sub_quotient < word_pow(2) * base()) by (nonlinear_arith)
            requires
                0 <= v < word_pow(2),
                0 <= sub_quotient < base(),
        ;
    }
    long_multiply(divisor_slice, sub_quotient, &mut tmp_product);
    let mut product_len = normalize_slice(&tmp_product);

    // the guess only accounts for the divisor's top digit; with the rest of the divisor
    // the true digit may be smaller, so step it down until its multiple of the divisor
    // fits in the window
    while is_slice_greater(&tmp_product[0..product_len], window)
        invariant
            digits_value(tmp_product@) == sub_quotient * v,
            sub_quotient >= q,
            q == w / v,
            v > 0,
            w >= 0,
            w == digits_value(window@),
            window@.len() == 0 || window@.last() != 0,
            product_len <= 3,
            product_len == 0 || tmp_product@[product_len - 1] != 0,
            digits_value(tmp_product@.take(product_len as int)) == digits_value(tmp_product@),
            divisor_slice@.len() == n,
            n <= 2,
            digits_value(divisor_slice@) == v,
        decreases sub_quotient,
    {
        proof {
            assert(tmp_product@.subrange(0, product_len as int) =~= tmp_product@.take(product_len as int));
            lemma_above_quotient(w, v, sub_quotient as int);
            assert(sub_quotient * v >= v) by (nonlinear_arith)
                requires
                    sub_quotient >= 1,
                    v > 0,
            ;
            assert(word_pow(0) == 1);
            assert(v * 1 == v);
        }
        sub_assign(&mut tmp_product, 0, divisor_slice);
        product_len = normalize_slice(&tmp_product);
        assert((sub_quotient - 1) * v == sub_quotient * v - v) by (nonlinear_arith);
        sub_quotient = sub_quotient - 1;
    }
    proof {
        assert(tmp_product@.subrange(0, product_len as int) =~= tmp_product@.take(product_len as int));
        lemma_within_quotient(w, v, sub_quotient as int);
        // the product has at most n + 1 digits
        if product_len > n + 1 {
            lemma_digits_top(tmp_product@, product_len as int);
            lemma_word_pow((n + 1) as nat, (product_len - 1) as nat);
            assert(q * v < base() * word_pow(n as nat)) by (nonlinear_arith)
                requires
                    0 <= q < base(),
                    0 <= v < word_pow(n as nat),
            ;
        }
    }
    (sub_quotient, tmp_product, product_len)
}

/// Finds the quotient digit at position quotient_idx and takes its multiple of the
/// divisor off the numerator; returns the digit and the numerator's new length
fn divide_window(
    numerator_chunks: &mut [u64; 5],
    numerator_max_idx: usize,
    quotient_idx: usize,
    divisor_slice: &[u64],
    divisor_hi: u64,
    reduced_divisor_hi: StrengthReducedU64,
) -> (r: (u64, usize))
    requires
        1 <= divisor_slice@.len() <= 2,
        quotient_idx + divisor_slice@.len() + 1 <= 5,
        divisor_hi == divisor_slice@[divisor_slice@.len() - 1],
        divisor_hi >= 0x8000_0000_0000_0000,
        digits_value(divisor_slice@) >= divisor_hi * word_pow((divisor_slice@.len() - 1) as nat),
        digits_value(divisor_slice@) < word_pow(divisor_slice@.len() as nat),
        reduced_divisor_hi@ == divisor_hi / 0x1_0000_0000,
        numerator_max_idx <= 5,
        forall|k: int| numerator_max_idx <= k < 5 ==> old(numerator_chunks)@[k] == 0,
        numerator_max_idx == 0 || old(numerator_chunks)@[numerator_max_idx - 1] != 0,
        digits_value(old(numerator_chunks)@) < digits_value(divisor_slice@) * word_pow(
            (quotient_idx + 1) as nat,
        ),
    ensures
        r.0 == window_value(old(numerator_chunks)@, quotient_idx as int, numerator_max_idx as int)
            / digits_value(divisor_slice@),
        digits_value(final(numerator_chunks)@) == digits_value(old(numerator_chunks)@) - r.0
            * digits_value(divisor_slice@) * word_pow(quotient_idx as nat),
        digits_value(final(numerator_chunks)@) < digits_value(divisor_slice@) * word_pow(
            quotient_idx as nat,
        ),
        r.1 <= 5,
        forall|k: int| r.1 <= k < 5 ==> final(numerator_chunks)@[k] == 0,
        r.1 == 0 || final(numerator_chunks)@[r.1 - 1] != 0,
{
    let divisor_len = divisor_slice.len();
    let ghost n = divisor_len as int;
    let ghost v = digits_value(divisor_slice@);
    let ghost rem = digits_value(numerator_chunks@);
    let ghost wq = word_pow(quotient_idx as nat);
    let ghost window_end: int = if numerator_max_idx >= quotient_idx {
        numerator_max_idx as int
    } else {
        quotient_idx as int
    };
    proof {
        lemma_window(numerator_chunks@, quotient_idx as int, window_end);
        lemma_word_pow(quotient_idx as nat, quotient_idx as nat);
        lemma_word_pow((n - 1) as nat, (n - 1) as nat);
        assert(word_pow((quotient_idx + 1) as nat) == base() * wq);
        assert(v > 0) by (nonlinear_arith)
            requires
                v >= divisor_hi * word_pow((n - 1) as nat),
                divisor_hi > 0,
                word_pow((n - 1) as nat) > 0,
        ;
    }
    let ghost low = digits_value(numerator_chunks@.take(quotient_idx as int));
    let ghost window = numerator_chunks@.subrange(quotient_idx as int, window_end);
    let ghost w = digits_value(window);
    proof {
        // the window is below one divisor times the base
        assert(w < v * base()) by (nonlinear_arith)
            requires
                rem == low + wq * w,
                low >= 0,
                rem < v * (base() * wq),
                wq > 0,
        ;
    }
    let numerator_start_idx = quotient_idx + divisor_len - 1;
    if numerator_start_idx < numerator_max_idx {
        let (digit, tmp_product, product_len) = window_digit(
            &numerator_chunks[quotient_idx..numerator_max_idx],
            divisor_slice,
            divisor_hi,
            reduced_divisor_hi,
        );
        proof {
            lemma_window_after(rem, low, wq, w, v);
            lemma_digits_top(numerator_chunks@, numerator_max_idx as int);
        }
        // take the digit's multiple of the divisor off the numerator, leaving the
        // remainder of this step
        sub_assign(numerator_chunks, quotient_idx, &tmp_product[0..product_len]);
        proof {
            // the digits above the old top are still zero
            assert forall|k: int| numerator_max_idx <= k < 5 implies numerator_chunks@[k] == 0 by {
                if numerator_chunks@[k] != 0 {
                    lemma_digit_weight(numerator_chunks@, k);
                    lemma_word_pow(numerator_max_idx as nat, k as nat);
                    assert(numerator_chunks@[k] * word_pow(k as nat) >= word_pow(k as nat)) by (nonlinear_arith)
                        requires
                            numerator_chunks@[k] >= 1,
                            word_pow(k as nat) > 0,
                    ;
                }
            }
        }
        // drop the zero digits at the top of what remains
        let top = normalize_slice(&numerator_chunks[0..numerator_max_idx]);
        proof {
            let before_top = numerator_chunks@.subrange(0, numerator_max_idx as int);
            assert forall|k: int| top <= k < 5 implies numerator_chunks@[k] == 0 by {
                if k < numerator_max_idx {
                    assert(before_top[k] == numerator_chunks@[k]);
                }
            }
            if top > 0 {
                assert(before_top[top - 1] == numerator_chunks@[top - 1]);
            }
            assert(window_end == numerator_max_idx);
                        assert(digit == w / v);
            assert(digits_value(numerator_chunks@) == rem - digit * v * wq);
            assert(digits_value(numerator_chunks@) < v * wq);
        }
        (digit, top)
    } else {
        proof {
            // the window is shorter than the divisor, so this quotient digit is zero
            lemma_digits_top(window, window.len() as int);
            if window.len() < n - 1 {
                lemma_word_pow(window.len() as nat, (n - 1) as nat);
            }
            assert(w < v) by (nonlinear_arith)
                requires
                    w < word_pow(window.len() as nat),
                    word_pow(window.len() as nat) <= word_pow((n - 1) as nat),
                    v >= divisor_hi * word_pow((n - 1) as nat),
                    divisor_hi >= 1,
                    word_pow((n - 1) as nat) > 0,
            ;
            lemma_basic_div(w, v);
            lemma_window_after(rem, low, wq, w, v);
            lemma_basic_div(0, v);
            if numerator_max_idx >= quotient_idx {
                assert(window_end == numerator_max_idx);
                assert(window_value(numerator_chunks@, quotient_idx as int, numerator_max_idx as int) == w);
                assert(0 == window_value(numerator_chunks@, quotient_idx as int, numerator_max_idx as int) / v);
            } else {
                assert(window_value(numerator_chunks@, quotient_idx as int, numerator_max_idx as int) == 0);
                assert(0 == window_value(numerator_chunks@, quotient_idx as int, numerator_max_idx as int) / v);
            }
            assert(0 * v * wq == 0) by (nonlinear_arith);
        }
        (0, numerator_max_idx)
    }
}

/// The digits of the largest 256-bit number shifted left by `s` bits (`p == pow2(s)`).
proof fn lemma_shifted_max(c0: int, c4: int, p: int)
    requires
        c0 == 0x1_0000_0000_0000_0000 - p,
        c4 == p - 1,
    ensures
        c0 + 0xffff_ffff_ffff_ffff * 0x1_0000_0000_0000_0000 + 0xffff_ffff_ffff_ffff * (
        0x1_0000_0000_0000_0000 * 0x1_0000_0000_0000_0000) + 0xffff_ffff_ffff_ffff * (
        0x1_0000_0000_0000_0000 * 0x1_0000_0000_0000_0000 * 0x1_0000_0000_0000_0000)
            + 0x1_0000_0000_0000_0000_0000_0000_0000_0000_0000_0000_0000_0000_0000_0000_0000_0000
            * c4 == (0x1_0000_0000_0000_0000_0000_0000_0000_0000_0000_0000_0000_0000_0000_0000_0000_0000
            - 1) * p,
{
    assert(c0 + 0xffff_ffff_ffff_ffff * 0x1_0000_0000_0000_0000 + 0xffff_ffff_ffff_ffff * (
    0x1_0000_0000_0000_0000 * 0x1_0000_0000_0000_0000) + 0xffff_ffff_ffff_ffff * (
    0x1_0000_0000_0000_0000 * 0x1_0000_0000_0000_0000 * 0x1_0000_0000_0000_0000)
        + 0x1_0000_0000_0000_0000_0000_0000_0000_0000_0000_0000_0000_0000_0000_0000_0000_0000 * c4
        == (0x1_0000_0000_0000_0000_0000_0000_0000_0000_0000_0000_0000_0000_0000_0000_0000_0000 - 1)
        * p) by (nonlinear_arith)
        requires
            c0 == 0x1_0000_0000_0000_0000 - p,
            c4 == p - 1,
    ;
}

/// Divides the largest 256-bit number by a non-zero 128-bit divisor, returning the
/// quotient as its upper and lower 128 bits
#[verifier::rlimit(60)]
pub fn divide_256_max_by_128(divisor: u128) -> (r: (u128, u128))
    requires
        divisor > 0,
    ensures
        r.0 * 0x1_0000_0000_0000_0000_0000_0000_0000_0000 + r.1 == (word_pow(4) - 1) / divisor as int,
{
    let leading_zeros = leading_zeros_u128(divisor);
    let ghost len = bit_len(divisor as nat);
    proof {
        lemma_bit_len_bounds(divisor as nat);
        lemma2_to64();
        vstd::arithmetic::power2::lemma2_to64_rest();
        reveal_with_fuel(word_pow, 5);
    }

    // if the divisor fits inside a u32, we can use a much faster algorithm
    if leading_zeros >= 96 {
        proof {
            if len < 32 {
                vstd::arithmetic::power2::lemma_pow2_strictly_increases(len, 32);
            }
        }
        return divide_256_max_by_32(divisor as u32);
    }
    let empty_divisor_chunks = (leading_zeros / 64) as usize;
    let shift_amount = leading_zeros % 64;
    let ghost p = pow2(shift_amount as nat) as int;
    let ghost n = 2 - empty_divisor_chunks;
    proof {
        lemma_pow2_pos(shift_amount as nat);
        // the shifted divisor has its top bit at the top of its top digit
        lemma_pow2_adds((len - 1) as nat, shift_amount as nat);
        lemma_pow2_adds(len, shift_amount as nat);
        assert(divisor * p < pow2(len + shift_amount as nat)) by (nonlinear_arith)
            requires
                divisor < pow2(len),
                p > 0,
                pow2(len + shift_amount as nat) == pow2(len) * p,
        ;
        assert(divisor * p >= pow2((len - 1 + shift_amount) as nat)) by (nonlinear_arith)
            requires
                divisor >= pow2((len - 1) as nat),
                p > 0,
                pow2((len - 1 + shift_amount) as nat) == pow2((len - 1) as nat) * p,
        ;
        lemma_pow2_adds(63, 64);
        lemma_pow2_adds(64, 64);
        if empty_divisor_chunks == 0 {
            assert(len + shift_amount == 128);
            assert((len - 1 + shift_amount) as nat == 127);
        } else {
            assert(len + shift_amount == 64);
            assert((len - 1 + shift_amount) as nat == 63);
        }
    }

    // Shift the divisor and chunk it up into u64s
    proof {
        lemma_u128_shl(divisor, shift_amount as u128);
    }
    let divisor_shifted = divisor << (shift_amount as u128);
    proof {
        lemma_u128_split(divisor_shifted);
    }
    let divisor_chunks: [u64; 2] = [
        #[verifier::truncate] (divisor_shifted as u64),
        (divisor_shifted >> 64) as u64,
    ];
    let divisor_len = divisor_chunks.len() - empty_divisor_chunks;
    let divisor_slice = &divisor_chunks[0..divisor_len];
    let ghost v = divisor * p;
    proof {
        lemma_digits_short(divisor_slice@);
        assert(divisor_slice@.len() == n);
        if n == 1 {
            assert(divisor_chunks[1] == 0);
        }
        assert(digits_value(divisor_slice@) == v);
    }

    // the only divisions done in the loop are by the upper 32 bits of the divisor's top
    // digit, so reduce that once
    let divisor_hi = divisor_slice[divisor_len - 1];
    proof {
        lemma_u64_split(divisor_hi);
        assert(divisor_hi >= 0x8000_0000_0000_0000);
        reveal_with_fuel(word_pow, 2);
        if n == 2 {
            assert(v == divisor_chunks[0] + divisor_chunks[1] * base());
            assert(word_pow(1) == base());
            assert(v >= divisor_hi * word_pow((n - 1) as nat)) by (nonlinear_arith)
                requires
                    v == divisor_chunks[0] + divisor_chunks[1] * base(),
                    divisor_hi == divisor_chunks[1],
                    word_pow((n - 1) as nat) == base(),
                    divisor_chunks[0] >= 0,
            ;
        } else {
            assert(word_pow(0) == 1);
        }
        assert(v >= divisor_hi * word_pow((n - 1) as nat));
        assert(v < word_pow(n as nat));
    }
    let reduced_divisor_hi = StrengthReducedU64::new(divisor_hi >> 32);

    // The numerator, the largest 256-bit number shifted as the divisor was, as five
    // digits; the digits from numerator_max_idx on are zero
    let mut numerator_chunks = [u64::MAX; 5];
    let mut numerator_max_idx: usize = if shift_amount > 0 {
        let shift = shift_amount as u64;
        proof {
            lemma_u64_shift_fill(0, shift);
            lemma_u64_low_mask(shift);
        }
        numerator_chunks.set(4, u64::MAX >> (64 - shift));
        numerator_chunks.set(0, u64::MAX << shift);
        5
    } else {
        numerator_chunks.set(4, 0);
        4
    };
    let ghost total = (word_pow(4) - 1) * p;
    proof {
        lemma_digits_split(numerator_chunks@, 4);
        lemma_digits_short(numerator_chunks@.take(4));
        lemma_digits_short(numerator_chunks@.skip(4));
        if shift_amount == 0 {
            assert(p == 1);
        }
        lemma_shifted_max(numerator_chunks[0] as int, numerator_chunks[4] as int, p);
        assert(word_pow(4) == 0x1_0000_0000_0000_0000_0000_0000_0000_0000_0000_0000_0000_0000_0000_0000_0000_0000);
        assert(digits_value(numerator_chunks@) == total);
        if shift_amount < 63 {
            vstd::arithmetic::power2::lemma_pow2_strictly_increases(shift_amount as nat, 63);
        }
        crate::long_multiplication::lemma_word_pow_add((5 - n) as nat, (n - 1) as nat);
        lemma_word_pow((5 - n) as nat, (5 - n) as nat);
        assert(((5 - n) as nat + (n - 1) as nat) as nat == 4);
        assert(total < v * word_pow((5 - n) as nat)) by (nonlinear_arith)
            requires
                total == (word_pow(4) - 1) * p,
                0 < p <= 0x8000_0000_0000_0000,
                word_pow((5 - n) as nat) > 0,
                v >= 0x8000_0000_0000_0000 * word_pow((n - 1) as nat),
                word_pow((5 - n) as nat) * word_pow((n - 1) as nat) == word_pow(4),
                word_pow(4) > 0,
        ;
    }

    let num_quotient_chunks = 3 + empty_divisor_chunks;
    let mut quotient_chunks = [0u64; 4];
    proof {
        lemma_digits_zero(quotient_chunks@);
    }
    let mut quotient_end = num_quotient_chunks;
    while quotient_end > 0
        invariant
            quotient_end <= num_quotient_chunks,
            num_quotient_chunks == 5 - n,
            n == divisor_len,
            1 <= n <= 2,
            divisor_slice@.len() == n,
            digits_value(divisor_slice@) == v,
            divisor_hi == divisor_slice@[n - 1],
            divisor_hi >= 0x8000_0000_0000_0000,
            v >= divisor_hi * word_pow((n - 1) as nat),
            v < word_pow(n as nat),
            reduced_divisor_hi@ == divisor_hi / 0x1_0000_0000,
            numerator_max_idx <= 5,
            forall|k: int| numerator_max_idx <= k < 5 ==> numerator_chunks@[k] == 0,
            numerator_max_idx == 0 || numerator_chunks@[numerator_max_idx - 1] != 0,
            total == digits_value(quotient_chunks@) * v + digits_value(numerator_chunks@),
            digits_value(numerator_chunks@) < v * word_pow(quotient_end as nat),
            forall|k: int| 0 <= k < quotient_end ==> quotient_chunks@[k] == 0,
        decreases quotient_end,
    {
        let quotient_idx = quotient_end - 1;
        let ghost rem = digits_value(numerator_chunks@);
        let ghost quotient_before = quotient_chunks@;
        let (digit, top) = divide_window(
            &mut numerator_chunks,
            numerator_max_idx,
            quotient_idx,
            divisor_slice,
            divisor_hi,
            reduced_divisor_hi,
        );
        quotient_chunks[quotient_idx] = digit;
        proof {
            lemma_digits_update(quotient_before, quotient_idx as int, digit);
            let wq = word_pow(quotient_idx as nat);
            assert(total == digits_value(quotient_chunks@) * v + digits_value(numerator_chunks@)) by (nonlinear_arith)
                requires
                    total == digits_value(quotient_before) * v + rem,
                    digits_value(quotient_chunks@) == digits_value(quotient_before) + (digit - 0) * wq,
                    digits_value(numerator_chunks@) == rem - digit * v * wq,
            ;
        }
        numerator_max_idx = top;
        quotient_end = quotient_idx;
    }

    proof {
        assert(word_pow(0) == 1);
        assert(v * word_pow(0) == v);
        lemma_digits_bound(numerator_chunks@);
        vstd::arithmetic::div_mod::lemma_fundamental_div_mod_converse(
            total,
            v,
            digits_value(quotient_chunks@),
            digits_value(numerator_chunks@),
        );
        lemma_scaled_quotient(word_pow(4) - 1, divisor as int, p);
    }

    // quotient_chunks now holds the quotient; recombine it into u128s
    let q = quotient_chunks;
    proof {
        lemma_digits_short(q@);
        lemma_u128_join64(q[1] as u128, q[0] as u128);
        lemma_u128_join64(q[3] as u128, q[2] as u128);
        assert(q[0] + q[1] * base() + q[2] * (base() * base()) + q[3] * (base() * base() * base())
            == (q[3] * 0x1_0000_0000_0000_0000 + q[2]) * 0x1_0000_0000_0000_0000_0000_0000_0000_0000
            + (q[1] * 0x1_0000_0000_0000_0000 + q[0])) by (nonlinear_arith)
            requires
                base() == 0x1_0000_0000_0000_0000,
        ;
    }
    let quotient_lo = ((q[1] as u128) << 64) | (q[0] as u128);
    let quotient_hi = ((q[3] as u128) << 64) | (q[2] as u128);
    (quotient_hi, quotient_lo)
}


/// Same as divide_128_by_64_helper, but for a divisor that fits in a u32.
pub fn divide_128_by_32_helper(numerator: u128, divisor: u32) -> (q: u64)
    requires
        numerator / 0x1_0000_0000_0000_0000 < divisor,
    ensures
        q == numerator as int / divisor as int,
{
    let wide_divisor = divisor as u64;
    proof {
        lemma_u64_leading_zeros(wide_divisor);
        lemma2_to64();
        crate::bits::lemma_bit_len_below(divisor as nat, 32);
    }
    let shift_size = wide_divisor.leading_zeros() - 32;
    let shift = shift_size as u64;
    let ghost p = pow2(shift as nat) as int;
    proof {
        lemma_u64_leading_zeros(wide_divisor);
        lemma_bit_len_bounds(divisor as nat);
        lemma2_to64();
        vstd::arithmetic::power2::lemma2_to64_rest();
        lemma_pow2_pos(shift as nat);
        lemma_pow2_adds((bit_len(divisor as nat) - 1) as nat, shift as nat);
        lemma_pow2_adds(bit_len(divisor as nat), shift as nat);
        assert((bit_len(divisor as nat) - 1) as nat + shift as nat == 31);
        assert(bit_len(divisor as nat) + shift as nat == 32);
        assert(0x8000_0000 <= divisor * p < 0x1_0000_0000) by (nonlinear_arith)
            requires
                pow2((bit_len(divisor as nat) - 1) as nat) <= divisor < pow2(bit_len(divisor as nat)),
                p > 0,
                pow2((bit_len(divisor as nat) - 1) as nat) * p == 0x8000_0000,
                pow2(bit_len(divisor as nat)) * p == 0x1_0000_0000,
        ;
        lemma_u64_shl(wide_divisor, shift);
        lemma_pow2_adds(shift as nat, 32);
        assert(numerator * (p * 0x1_0000_0000) < divisor * p * 0x1_0000_0000_0000_0000_0000_0000) by (nonlinear_arith)
            requires
                numerator < (numerator / 0x1_0000_0000_0000_0000 + 1) * 0x1_0000_0000_0000_0000,
                numerator / 0x1_0000_0000_0000_0000 + 1 <= divisor,
                p > 0,
        ;
        lemma_u128_shl(numerator, (shift + 32) as u128);
    }
    let shifted_divisor = wide_divisor << shift;
    let shifted_numerator = numerator << ((shift + 32) as u128);
    let ghost scaled = numerator * p;
    proof {
        lemma_u128_split(shifted_numerator);
        lemma_u128_split(shifted_numerator >> 32u128);
    }

    // split the numerator into its top 64 bits and the next 32 bits
    let numerator_hi: u64 = (shifted_numerator >> 64) as u64;
    let numerator_mid: u64 = (#[verifier::truncate] ((shifted_numerator >> 32) as u32)) as u64;
    proof {
        assert(shifted_numerator >> 32u128 == (shifted_numerator >> 32) as u128);
        assert((#[verifier::truncate] ((shifted_numerator >> 32) as u32)) as u64 == (shifted_numerator >> 32u128) % 0x1_0000_0000) by {
            lemma_u128_split32(shifted_numerator >> 32u128);
        }
        assert(numerator * (p * 0x1_0000_0000) == scaled * 0x1_0000_0000) by (nonlinear_arith)
            requires
                scaled == numerator * p,
        ;
        assert(shifted_numerator == scaled * 0x1_0000_0000);
        assert((scaled * 0x1_0000_0000) / 0x1_0000_0000 == scaled);
        vstd::arithmetic::div_mod::lemma_div_denominator(scaled * 0x1_0000_0000, 0x1_0000_0000, 0x1_0000_0000);
        assert(numerator_hi == scaled / 0x1_0000_0000);
        vstd::bits::lemma_u128_shr_is_div(shifted_numerator, 32);
        assert(shifted_numerator >> 32u128 == scaled);
        assert(numerator_mid == scaled % 0x1_0000_0000);
        assert(numerator_hi * 0x1_0000_0000 + numerator_mid == scaled);
        assert(scaled < shifted_divisor * 0x1_0000_0000_0000_0000);
        assert(numerator_hi < shifted_divisor * 0x1_0000_0000);
        lemma_division_step(numerator_hi as int, numerator_mid as int, 0x1_0000_0000, shifted_divisor as int);
        lemma_quotient_product(numerator_hi as int, shifted_divisor as int);
    }

    // divide the top 64 bits, then the remainder followed by the next 32 bits
    let quotient_hi = numerator_hi / shifted_divisor;
    let remainder_hi = numerator_hi - quotient_hi * shifted_divisor;
    proof {
        lemma_u64_join(remainder_hi, numerator_mid);
        lemma_scaled_quotient(numerator as int, divisor as int, p);
        assert(quotient_hi < 0x1_0000_0000) by (nonlinear_arith)
            requires
                quotient_hi == numerator_hi / shifted_divisor,
                numerator_hi < shifted_divisor * 0x1_0000_0000,
                shifted_divisor > 0,
        {
            lemma_quotient_product(numerator_hi as int, shifted_divisor as int);
        }
    }
    let final_numerator = (remainder_hi << 32) | numerator_mid;
    let quotient_lo = final_numerator / shifted_divisor;
    proof {
        lemma_u64_join(quotient_hi, quotient_lo);
    }
    (quotient_hi << 32) | quotient_lo
}


/// The 96-bit window `(remainder + quotient * divisor_hi) : numerator_part` that a
/// quotient digit and its partial remainder describe.
pub open spec fn digit_window(remainder: int, quotient: int, numerator_part: int, divisor_hi: int) -> int {
    (remainder + quotient * divisor_hi) * 0x1_0000_0000 + numerator_part
}

/// Decrements a quotient digit guessed from the divisor's upper half until, with the lower
/// half of the divisor taken into account, its multiple of the divisor fits in the window.
/// The partial remainder is the window's upper part less the digit times the divisor's
/// upper half; once it reaches 2^32 the digit fits.
fn refine_digit(
    quotient: u64,
    partial_remainder: u64,
    numerator_part: u64,
    divisor_hi: u64,
    divisor_lo: u64,
) -> (r: (u64, u64))
    requires
        0x8000_0000 <= divisor_hi < 0x1_0000_0000,
        divisor_lo < 0x1_0000_0000,
        numerator_part < 0x1_0000_0000,
        quotient <= U32_MAX,
        partial_remainder + quotient * divisor_hi <= u64::MAX,
        digit_window(partial_remainder as int, quotient as int, numerator_part as int, divisor_hi as int)
            / (divisor_hi * 0x1_0000_0000 + divisor_lo) <= quotient,
    ensures
        r.0 == digit_window(partial_remainder as int, quotient as int, numerator_part as int, divisor_hi as int)
            / (divisor_hi * 0x1_0000_0000 + divisor_lo),
        r.1 + r.0 * divisor_hi == partial_remainder + quotient * divisor_hi,
{
    let ghost top = partial_remainder + quotient * divisor_hi;
    let ghost d = divisor_hi * 0x1_0000_0000 + divisor_lo;
    let ghost x = top * 0x1_0000_0000 + numerator_part;
    let mut quotient = quotient;
    let mut partial_remainder = partial_remainder;
    proof {
        lemma_quotient_product(x, d);
        assert(quotient * divisor_lo < 0x1_0000_0000_0000_0000) by (nonlinear_arith)
            requires
                quotient <= 0xffff_ffff,
                divisor_lo < 0x1_0000_0000,
        ;
    }
    // the decrement is owed while quotient * divisor exceeds the window:
    // quotient * divisor_lo > partial_remainder * 2^32 + numerator_part
    while partial_remainder <= U32_MAX && quotient * divisor_lo > (partial_remainder << 32) | numerator_part
        invariant
            partial_remainder + quotient * divisor_hi == top,
            x == top * 0x1_0000_0000 + numerator_part,
            d == divisor_hi * 0x1_0000_0000 + divisor_lo,
            x / d <= quotient <= U32_MAX,
            x >= 0,
            d > 0,
            0x8000_0000 <= divisor_hi < 0x1_0000_0000,
            divisor_lo < 0x1_0000_0000,
            numerator_part < 0x1_0000_0000,
            top <= u64::MAX,
            quotient * divisor_lo < 0x1_0000_0000_0000_0000,
        decreases quotient,
    {
        proof {
            lemma_u64_join(partial_remainder, numerator_part);
            assert(quotient * d > x) by (nonlinear_arith)
                requires
                    quotient * divisor_lo > partial_remainder * 0x1_0000_0000 + numerator_part,
                    partial_remainder + quotient * divisor_hi == top,
                    x == top * 0x1_0000_0000 + numerator_part,
                    d == divisor_hi * 0x1_0000_0000 + divisor_lo,
            ;
            lemma_above_quotient(x, d, quotient as int);
        }
        assert((quotient - 1) * divisor_hi == quotient * divisor_hi - divisor_hi) by (nonlinear_arith);
        assert((quotient - 1) * divisor_lo < 0x1_0000_0000_0000_0000) by (nonlinear_arith)
            requires
                quotient <= 0xffff_ffff,
                quotient >= 1,
                divisor_lo < 0x1_0000_0000,
        ;
        quotient = quotient - 1;
        partial_remainder = partial_remainder + divisor_hi;
    }
    proof {
        if partial_remainder <= U32_MAX {
            lemma_u64_join(partial_remainder, numerator_part);
        } else {
            assert(quotient * divisor_lo < 0x1_0000_0000_0000_0000) by (nonlinear_arith)
                requires
                    quotient <= 0xffff_ffff,
                    divisor_lo < 0x1_0000_0000,
            ;
        }
        assert(quotient * d <= x) by (nonlinear_arith)
            requires
                quotient * divisor_lo <= partial_remainder * 0x1_0000_0000 + numerator_part,
                partial_remainder + quotient * divisor_hi == top,
                x == top * 0x1_0000_0000 + numerator_part,
                d == divisor_hi * 0x1_0000_0000 + divisor_lo,
        ;
        lemma_within_quotient(x, d, quotient as int);
    }
    (quotient, partial_remainder)
}

/// Divides a 128-bit number by a 64-bit divisor, returning the quotient as a 64-bit number;
/// the upper half of the numerator must be below the divisor, so that the quotient fits
pub fn divide_128_by_64_helper(numerator: u128, divisor: u64) -> (q: u64)
    requires
        numerator / 0x1_0000_0000_0000_0000 < divisor,
    ensures
        q == numerator as int / divisor as int,
{
    if divisor <= U32_MAX {
        return divide_128_by_32_helper(numerator, divisor as u32);
    }
    let shift_size = divisor.leading_zeros();
    let shift = shift_size as u64;
    let ghost p = pow2(shift as nat) as int;
    proof {
        lemma_u64_leading_zeros(divisor);
        lemma_bit_len_bounds(divisor as nat);
        lemma2_to64();
        vstd::arithmetic::power2::lemma2_to64_rest();
        if bit_len(divisor as nat) <= 32 {
            vstd::arithmetic::power2::lemma_pow2_strictly_increases(bit_len(divisor as nat), 32);
        }
        lemma_pow2_pos(shift as nat);
        lemma_pow2_adds((bit_len(divisor as nat) - 1) as nat, shift as nat);
        lemma_pow2_adds(bit_len(divisor as nat), shift as nat);
        assert((bit_len(divisor as nat) - 1) as nat + shift as nat == 63);
        assert(bit_len(divisor as nat) + shift as nat == 64);
        assert(0x8000_0000_0000_0000 <= divisor * p < 0x1_0000_0000_0000_0000) by (nonlinear_arith)
            requires
                pow2((bit_len(divisor as nat) - 1) as nat) <= divisor < pow2(bit_len(divisor as nat)),
                p > 0,
                pow2((bit_len(divisor as nat) - 1) as nat) * p == 0x8000_0000_0000_0000,
                pow2(bit_len(divisor as nat)) * p == 0x1_0000_0000_0000_0000,
        ;
        lemma_u64_shl(divisor, shift);
        assert(numerator * p < divisor * p * 0x1_0000_0000_0000_0000) by (nonlinear_arith)
            requires
                numerator < (numerator / 0x1_0000_0000_0000_0000 + 1) * 0x1_0000_0000_0000_0000,
                numerator / 0x1_0000_0000_0000_0000 + 1 <= divisor,
                p > 0,
        ;
        lemma_u128_shl(numerator, shift as u128);
    }
    let shifted_divisor = divisor << shift;
    let shifted_numerator = numerator << (shift as u128);
    let divisor_hi = shifted_divisor >> 32;
    let divisor_lo = (#[verifier::truncate] (shifted_divisor as u32)) as u64;
    proof {
        lemma_u64_split(shifted_divisor);
        lemma_u128_split(shifted_numerator);
        vstd::bits::lemma_u128_shr_is_div(shifted_numerator, 32);
        lemma_u128_split32(shifted_numerator >> 32u128);
        lemma_u128_split32(shifted_numerator);
    }

    // split the numerator into 3 chunks: the top 64-bits, the next 32-bits, and the lowest
    // 32-bits
    let numerator_hi: u64 = (shifted_numerator >> 64) as u64;
    let numerator_mid: u64 = (#[verifier::truncate] ((shifted_numerator >> 32) as u32)) as u64;
    let numerator_lo: u64 = (#[verifier::truncate] (shifted_numerator as u32)) as u64;
    let ghost n = shifted_numerator as int;
    let ghost d = shifted_divisor as int;
    let ghost upper = numerator_hi * 0x1_0000_0000 + numerator_mid;
    proof {
        assert(shifted_numerator >> 32u128 == (shifted_numerator >> 32) as u128);
        vstd::arithmetic::div_mod::lemma_div_denominator(n, 0x1_0000_0000, 0x1_0000_0000);
        vstd::arithmetic::div_mod::lemma_fundamental_div_mod(n / 0x1_0000_0000, 0x1_0000_0000);
        vstd::arithmetic::div_mod::lemma_fundamental_div_mod(n, 0x1_0000_0000);
        assert(upper == n / 0x1_0000_0000);
        assert(n == upper * 0x1_0000_0000 + numerator_lo);
        assert(numerator_hi < d);
        assert(d == divisor_hi * 0x1_0000_0000 + divisor_lo);
        lemma_digit_guess(numerator_hi as int, numerator_mid as int, 0x1_0000_0000, d);
    }

    // step 1: the upper digit of the quotient, of the upper 96 bits of the numerator.
    // Dividing by the divisor's upper half gives a guess that is never too small.
    let guess_hi = numerator_hi / divisor_hi;
    let quotient_guess_hi = if guess_hi < U32_MAX { guess_hi } else { U32_MAX };
    proof {
        lemma_quotient_product(numerator_hi as int, divisor_hi as int);
        assert(quotient_guess_hi * divisor_hi <= guess_hi * divisor_hi) by (nonlinear_arith)
            requires
                quotient_guess_hi <= guess_hi,
                divisor_hi > 0,
        ;
    }
    let partial_guess_hi = numerator_hi - quotient_guess_hi * divisor_hi;
    let (quotient_hi, partial_remainder_hi) = refine_digit(
        quotient_guess_hi,
        partial_guess_hi,
        numerator_mid,
        divisor_hi,
        divisor_lo,
    );

    // step 2: the remainder of step 1, completed by taking off the quotient times the lower
    // half of the divisor. The partial remainder may exceed 32 bits, so its shift drops
    // bits; the true remainder fits in 64 bits, and wrapping arithmetic recovers it.
    let ghost rem_hi = upper - quotient_hi * d;
    proof {
        lemma_quotient_product(upper, d);
        lemma_u64_shift_or(partial_remainder_hi, numerator_mid);
        assert(quotient_hi * divisor_lo < 0x1_0000_0000_0000_0000) by (nonlinear_arith)
            requires
                quotient_hi <= 0xffff_ffff,
                divisor_lo < 0x1_0000_0000,
        ;
        assert(rem_hi == partial_remainder_hi * 0x1_0000_0000 + numerator_mid - quotient_hi * divisor_lo) by (nonlinear_arith)
            requires
                rem_hi == upper - quotient_hi * d,
                upper == numerator_hi * 0x1_0000_0000 + numerator_mid,
                partial_remainder_hi + quotient_hi * divisor_hi == numerator_hi,
                d == divisor_hi * 0x1_0000_0000 + divisor_lo,
        ;
        vstd::arithmetic::div_mod::lemma_fundamental_div_mod(partial_remainder_hi as int, 0x1_0000_0000);
    }
    let full_remainder_hi = ((partial_remainder_hi << 32) | numerator_mid).wrapping_sub(
        quotient_hi * divisor_lo,
    );
    assert(full_remainder_hi == rem_hi);

    proof {
        lemma_digit_guess(full_remainder_hi as int, numerator_lo as int, 0x1_0000_0000, d);
    }
    let guess_lo = full_remainder_hi / divisor_hi;
    let quotient_guess_lo = if guess_lo < U32_MAX { guess_lo } else { U32_MAX };
    proof {
        lemma_quotient_product(full_remainder_hi as int, divisor_hi as int);
        assert(quotient_guess_lo * divisor_hi <= guess_lo * divisor_hi) by (nonlinear_arith)
            requires
                quotient_guess_lo <= guess_lo,
                divisor_hi > 0,
        ;
    }
    let partial_guess_lo = full_remainder_hi - quotient_guess_lo * divisor_hi;
    let (quotient_lo, _) = refine_digit(
        quotient_guess_lo,
        partial_guess_lo,
        numerator_lo,
        divisor_hi,
        divisor_lo,
    );

    // We now have our separate quotients, now we just have to add them together
    proof {
        lemma_u64_join(quotient_hi, quotient_lo);
        lemma_division_step(upper, numerator_lo as int, 0x1_0000_0000, d);
        lemma_scaled_quotient(numerator as int, divisor as int, p);
    }
    (quotient_hi << 32) | quotient_lo
}


/// Divides a 128-bit number by a 128-bit divisor
pub fn divide_128(numerator: u128, divisor: u128) -> (q: u128)
    requires
        divisor > 0,
    ensures
        q == numerator / divisor,
{
    proof {
        lemma_u128_split(numerator);
    }
    if divisor <= U64_MAX {
        let divisor64 = divisor as u64;
        let upper_numerator = (numerator >> 64) as u64;
        if divisor64 > upper_numerator {
            divide_128_by_64_helper(numerator, divisor64) as u128
        } else {
            let upper_quotient = upper_numerator / divisor64;
            proof {
                lemma_quotient_product(upper_numerator as int, divisor as int);
                lemma_division_step(
                    upper_numerator as int,
                    numerator as int % 0x1_0000_0000_0000_0000,
                    0x1_0000_0000_0000_0000,
                    divisor as int,
                );
            }
            let upper_remainder = upper_numerator - upper_quotient * divisor64;
            proof {
                lemma_u128_join64(upper_remainder as u128, numerator as u64 as u128);
            }
            let intermediate_numerator = ((upper_remainder as u128) << 64) | (
            #[verifier::truncate] (numerator as u64)) as u128;
            let lower_quotient = divide_128_by_64_helper(intermediate_numerator, divisor64);
            proof {
                lemma_u128_join64(upper_quotient as u128, lower_quotient as u128);
            }
            ((upper_quotient as u128) << 64) | (lower_quotient as u128)
        }
    } else {
        let shift_size = leading_zeros_u128(divisor);
        let ghost len = bit_len(divisor as nat);
        let ghost p = pow2(shift_size as nat) as int;
        let ghost t = pow2((64 - shift_size) as nat) as int;
        proof {
            lemma_bit_len_bounds(divisor as nat);
            lemma2_to64();
            vstd::arithmetic::power2::lemma2_to64_rest();
            if len <= 64 {
                if len < 64 {
                    vstd::arithmetic::power2::lemma_pow2_strictly_increases(len, 64);
                }
            }
            lemma_pow2_pos(shift_size as nat);
            lemma_pow2_pos((64 - shift_size) as nat);
            lemma_pow2_adds(shift_size as nat, (64 - shift_size) as nat);
            lemma_pow2_adds((63 - shift_size) as nat, 1);
            lemma_pow2_adds(63, (64 - shift_size) as nat);
            lemma_pow2_adds(len, shift_size as nat);
            lemma_pow2_adds(64, 64);
            assert(len + shift_size == 128);
            assert(63 + (64 - shift_size) == len - 1);
            assert(divisor * p < 0x1_0000_0000_0000_0000_0000_0000_0000_0000) by (nonlinear_arith)
                requires
                    divisor < pow2(len),
                    p > 0,
                    pow2(len) * p == 0x1_0000_0000_0000_0000_0000_0000_0000_0000,
            ;
            lemma_u128_shl(divisor, shift_size as u128);
            // the divisor's top 64 bits are its quotient by t, with the top bit set
            vstd::arithmetic::div_mod::lemma_div_denominator(divisor * p, p, t);
            assert(p * t == 0x1_0000_0000_0000_0000);
            lemma_scaled_quotient(divisor as int, t, p);
            assert((divisor * p) / (t * p) == divisor as int / t);
            vstd::arithmetic::div_mod::lemma_div_is_ordered(pow2((len - 1) as nat) as int, divisor as int, t);
            vstd::arithmetic::div_mod::lemma_fundamental_div_mod_converse(pow2((len - 1) as nat) as int, t, 0x8000_0000_0000_0000, 0);
        }
        let shifted_divisor = divisor << (shift_size as u128);
        let shifted_numerator = numerator >> 1;
        let divisor_top = (shifted_divisor >> 64) as u64;
        proof {
            lemma_u128_split(shifted_divisor);
            assert(shifted_divisor >> 64u128 == shifted_divisor >> 64);
            assert(shifted_divisor == divisor * p);
            assert(t * p == 0x1_0000_0000_0000_0000);
            assert(divisor_top == (divisor * p) / (t * p));
            assert(divisor_top == divisor as int / t);
            assert(divisor_top >= 0x8000_0000_0000_0000);
            vstd::bits::lemma_u128_shr_is_div(numerator, 1);
        }
        let upper_quotient = divide_128_by_64_helper(shifted_numerator, divisor_top);
        let down = (63 - shift_size) as u64;
        proof {
            vstd::bits::lemma_u64_shr_is_div(upper_quotient, down);
            // undo the halving of the numerator and the shift of the divisor
            vstd::arithmetic::div_mod::lemma_div_denominator(numerator as int, 2, divisor_top as int);
            vstd::arithmetic::div_mod::lemma_div_denominator(numerator as int, 2 * divisor_top, pow2(down as nat) as int);
            vstd::arithmetic::div_mod::lemma_div_denominator(numerator as int / 2, divisor_top as int, pow2(down as nat) as int);
            assert(2 * divisor_top * pow2(down as nat) == divisor_top * t) by (nonlinear_arith)
                requires
                    pow2(down as nat) * 2 == t,
            ;
            lemma_truncated_divisor_estimate(numerator as int, divisor as int, t, divisor_top as int);
        }
        let mut quotient = upper_quotient >> down;
        assert(quotient == numerator as int / (divisor_top * t));
        if quotient > 0 {
            quotient -= 1;
        }
        let ghost exact = numerator as int / divisor as int;
        proof {
            lemma_quotient_product(numerator as int, divisor as int);
            assert(quotient * divisor <= exact * divisor) by (nonlinear_arith)
                requires
                    quotient <= exact,
                    divisor > 0,
            ;
        }
        let remainder = numerator - quotient as u128 * divisor;
        if remainder >= divisor {
            proof {
                assert((quotient + 1) * divisor == quotient * divisor + divisor) by (nonlinear_arith);
                lemma_within_quotient(numerator as int, divisor as int, quotient + 1);
            }
            quotient += 1;
        } else {
            proof {
                assert((quotient + 1) * divisor == quotient * divisor + divisor) by (nonlinear_arith);
                lemma_above_quotient(numerator as int, divisor as int, quotient + 1);
            }
        }
        quotient as u128
    }
}

} // verus!
