//! The classic derivation's choice of how to divide by a given divisor.
use vstd::prelude::*;
use vstd::arithmetic::power2::{pow2, lemma_pow2_adds, lemma_pow2_pos, lemma2_to64};
use vstd::arithmetic::div_mod::{
    lemma_fundamental_div_mod_converse, lemma_small_mod, lemma_mul_mod_noop_right,
    lemma_add_mod_noop,
};
use crate::bits::{bit_len, lemma_bit_len_bounds, lemma_u128_shl, lemma_u128_pow2};
use crate::long_division::leading_zeros_u128;

verus! {

/// How a divisor is divided: by a shift alone, by a multiplier that fits the width and a
/// shift, or by a multiplier one bit wider than the width, with a correction.
#[derive(Clone, Copy, Debug, PartialEq, Eq, Structural)]
pub enum Algorithm {
    ShiftOnly,
    MultiplyAndShift,
    ExtraMultiplyBit,
}

/// The position of the highest set bit of a positive number.
pub open spec fn floor_log2(d: nat) -> nat {
    (bit_len(d) - 1) as nat
}

/// The classic derivation's choice for a divisor `d` of a `w`-bit type: a power of two is
/// a shift; otherwise, with `s` the position of the top bit of `d`, the multiplier
/// `2^(s + w) / d + 1` lacks precision exactly when `d - 2^(s + w) % d >= 2^s`.
pub open spec fn algorithm_of(d: nat, w: nat) -> Algorithm {
    let s = floor_log2(d);
    if d == pow2(s) {
        Algorithm::ShiftOnly
    } else if d - (pow2(s + w) as int) % (d as int) >= pow2(s) {
        Algorithm::ExtraMultiplyBit
    } else {
        Algorithm::MultiplyAndShift
    }
}

/// Selects the algorithm for a non-zero divisor of a `width`-bit type.
pub fn select_algorithm(divisor: u128, width: u32) -> (r: Algorithm)
    requires
        divisor > 0,
        width == 8 && divisor <= u8::MAX || width == 16 && divisor <= u16::MAX || width == 32
            && divisor <= u32::MAX || width == 64 && divisor <= u64::MAX || width == 128,
    ensures
        r == algorithm_of(divisor as nat, width as nat),
{
    let leading = leading_zeros_u128(divisor);
    proof {
        lemma_bit_len_bounds(divisor as nat);
        lemma2_to64();
        lemma_pow2_adds(64, 64);
        assert(divisor < pow2(width as nat));
    }
    let shift_size = 127 - leading;
    proof {
        lemma_u128_pow2(shift_size as nat);
        lemma_u128_shl(1, shift_size as u128);
    }
    let top = 1u128 << (shift_size as u128);
    assert(top == pow2(shift_size as nat));
    if divisor == top {
        return Algorithm::ShiftOnly;
    }
    proof {
        lemma2_to64();
        lemma_pow2_adds(64, 64);
        if divisor == 1 {
            reveal_with_fuel(bit_len, 2);
            assert(bit_len(0) == 0);
            assert(bit_len(1) == 1);
            assert(pow2(0) == 1);
        }
        lemma_small_mod(1, divisor as nat);
    }
    // the remainder of 2^width by the divisor
    let mut remainder: u128 = if width < 128 {
        proof {
            lemma_u128_pow2(width as nat);
            lemma_u128_shl(1, width as u128);
        }
        (1u128 << (width as u128)) % divisor
    } else {
        proof {
            lemma_add_mod_noop(u128::MAX as int, 1, divisor as int);
        }
        (u128::MAX % divisor + 1) % divisor
    };
    // doubled shift_size times, modulo the divisor
    let mut i: u32 = 0;
    while i < shift_size
        invariant
            i <= shift_size,
            divisor > 0,
            remainder < divisor,
            remainder == (pow2((width + i) as nat) as int) % (divisor as int),
        decreases shift_size - i,
    {
        let ghost before = remainder as int;
        proof {
            lemma2_to64();
            lemma_pow2_adds((width + i) as nat, 1);
            lemma_mul_mod_noop_right(2, pow2((width + i) as nat) as int, divisor as int);
            assert(pow2(((width + i) as nat + 1) as nat) == 2 * pow2((width + i) as nat));
        }
        remainder = if remainder >= divisor - remainder {
            proof {
                lemma_fundamental_div_mod_converse(2 * before, divisor as int, 1, 2 * before - divisor);
            }
            remainder - (divisor - remainder)
        } else {
            proof {
                lemma_small_mod((2 * before) as nat, divisor as nat);
            }
            remainder + remainder
        };
        i = i + 1;
    }
    if divisor - remainder >= top {
        Algorithm::ExtraMultiplyBit
    } else {
        Algorithm::MultiplyAndShift
    }
}


/// The multiplier of the classic derivation that fits the width: `2^(s + w) / d + 1`,
/// with `s` the position of the top bit of `d`, applied with a shift of `s + w`.
pub open spec fn narrow_multiplier(d: nat, w: nat) -> nat {
    (pow2(floor_log2(d) + w) / d + 1) as nat
}

/// Where the narrow multiplier gets the quotient of some `w`-bit numerator wrong, for a
/// divisor that is not a power of two, the classic derivation selects the extra
/// multiply bit.
pub proof fn lemma_narrow_failure_selects_extra_bit(d: nat, w: nat, n: nat)
    requires
        0 < d < pow2(w),
        n < pow2(w),
        algorithm_of(d, w) != Algorithm::ShiftOnly,
        (n * narrow_multiplier(d, w)) as int / (pow2(floor_log2(d) + w) as int) != n as int / d as int,
    ensures
        algorithm_of(d, w) == Algorithm::ExtraMultiplyBit,
{
    let s = floor_log2(d);
    let p = pow2(s + w) as int;
    let m = narrow_multiplier(d, w) as int;
    let r = p % (d as int);
    lemma_pow2_pos(s + w);
    lemma_pow2_pos(s);
    lemma_pow2_adds(s, w);
    if d - r < pow2(s) {
        // the error of the multiplier, m * d - 2^(s + w), is d - r
        let e = d - r;
        vstd::arithmetic::div_mod::lemma_fundamental_div_mod(p, d as int);
        assert(m * d == p + e) by (nonlinear_arith)
            requires
                m == p / (d as int) + 1,
                p == d * (p / (d as int)) + r,
                e == d - r,
        ;
        assert(0 <= n * e < p) by (nonlinear_arith)
            requires
                0 <= n < pow2(w),
                0 < e < pow2(s),
                p == pow2(s) * pow2(w),
        ;
        crate::arith::lemma_small_error_quotient(n as int, d as int, m, p, e);
    }
}

} // verus!
