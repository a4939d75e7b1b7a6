//! Shifts, masks and joins of machine words, stated as arithmetic.
use vstd::bits::{
    lemma_u64_shl_is_mul, lemma_u64_shr_is_div, lemma_u64_pow2_no_overflow,
    lemma_u64_low_bits_mask_is_mod, low_bits_mask,
};
use vstd::std_specs::bits::{u64_trailing_zeros, axiom_u64_trailing_zeros};
use vstd::arithmetic::power2::{pow2, lemma_pow2_adds, lemma_pow2_pos, lemma_pow2_strictly_increases, lemma2_to64};
use vstd::bits::{lemma_u8_shl_is_mul, lemma_u8_shr_is_div, lemma_u8_pow2_no_overflow, lemma_u8_low_bits_mask_is_mod};
use vstd::std_specs::bits::{u8_trailing_zeros, axiom_u8_trailing_zeros};
use vstd::bits::{lemma_u16_shl_is_mul, lemma_u16_shr_is_div, lemma_u16_pow2_no_overflow, lemma_u16_low_bits_mask_is_mod};
use vstd::std_specs::bits::{u16_trailing_zeros, axiom_u16_trailing_zeros};
use vstd::bits::{lemma_u32_shl_is_mul, lemma_u32_shr_is_div, lemma_u32_pow2_no_overflow, lemma_u32_low_bits_mask_is_mod};
use vstd::std_specs::bits::{u32_trailing_zeros, axiom_u32_trailing_zeros};
use vstd::prelude::*;

verus! {

/// The number of binary digits of `x`: zero for zero.
pub open spec fn bit_len(x: nat) -> nat
    decreases x,
{
    if x == 0 {
        0
    } else {
        1 + bit_len(x / 2)
    }
}

/// A positive number lies between the powers of two that its length names.
pub proof fn lemma_bit_len_bounds(x: nat)
    requires
        x > 0,
    ensures
        pow2((bit_len(x) - 1) as nat) <= x < pow2(bit_len(x)),
    decreases x,
{
    lemma2_to64();
    if x == 1 {
        assert(bit_len(0) == 0);
    } else {
        lemma_bit_len_bounds(x / 2);
        lemma_pow2_adds((bit_len(x / 2) - 1) as nat, 1);
        lemma_pow2_adds(bit_len(x / 2), 1);
    }
}

/// `u64::leading_zeros` counts the digits above the length of the number.
pub proof fn lemma_u64_leading_zeros(x: u64)
    ensures
        vstd::std_specs::bits::u64_leading_zeros(x) == 64 - bit_len(x as nat),
        bit_len(x as nat) <= 64,
    decreases x,
{
    reveal(vstd::std_specs::bits::u64_leading_zeros);
    if x != 0 {
        lemma_u64_leading_zeros(x / 2);
    }
}

/// A number below `pow2(n)` has at most `n` digits.
pub proof fn lemma_bit_len_below(x: nat, n: nat)
    requires
        x < pow2(n),
    ensures
        bit_len(x) <= n,
{
    if x > 0 {
        lemma_bit_len_bounds(x);
        if bit_len(x) > n {
            lemma_pow2_strictly_increases(n, (bit_len(x) - 1) as nat);
        }
    }
}

/// Splitting a `u64` into its upper and lower 32 bits.
pub proof fn lemma_u64_split(x: u64)
    ensures
        x >> 32u64 == x / 0x1_0000_0000,
        x as u32 as u64 == x % 0x1_0000_0000,
        x as u32 as u128 == x % 0x1_0000_0000,
{
    assert(x >> 32u64 == x / 0x1_0000_0000 && x as u32 as u64 == x % 0x1_0000_0000
        && x as u32 as u128 == x % 0x1_0000_0000) by (bit_vector);
}

/// Splitting a `u16` into its upper and lower 8 bits.
pub proof fn lemma_u16_split(x: u16)
    ensures
        x >> 8u16 == x / 0x100,
        x as u8 as u16 == x % 0x100,
{
    assert(x >> 8u16 == x / 0x100 && x as u8 as u16 == x % 0x100) by (bit_vector);
}

/// Splitting a `u32` into its upper and lower 16 bits.
pub proof fn lemma_u32_split(x: u32)
    ensures
        x >> 16u32 == x / 0x1_0000,
        x as u16 as u32 == x % 0x1_0000,
{
    assert(x >> 16u32 == x / 0x1_0000 && x as u16 as u32 == x % 0x1_0000) by (bit_vector);
}

/// Shifting a `u64` left by 32 keeps its lower half, and the lower 32 bits are then free.
pub proof fn lemma_u64_shift_or(hi: u64, lo: u64)
    requires
        lo < 0x1_0000_0000,
    ensures
        (hi << 32u64) | lo == (hi % 0x1_0000_0000) * 0x1_0000_0000 + lo,
{
    assert((hi << 32u64) | lo == (hi % 0x1_0000_0000) * 0x1_0000_0000 + lo) by (bit_vector)
        requires
            lo < 0x1_0000_0000,
    ;
}

/// Joining two 32-bit halves into a `u64`.
pub proof fn lemma_u64_join(hi: u64, lo: u64)
    requires
        hi < 0x1_0000_0000,
        lo < 0x1_0000_0000,
    ensures
        (hi << 32u64) | lo == hi * 0x1_0000_0000 + lo,
{
    assert((hi << 32u64) | lo == hi * 0x1_0000_0000 + lo) by (bit_vector)
        requires
            hi < 0x1_0000_0000,
            lo < 0x1_0000_0000,
    ;
}

/// Splitting a `u128` into its upper and lower 64 bits.
pub proof fn lemma_u128_split(x: u128)
    ensures
        x >> 64u128 == x / 0x1_0000_0000_0000_0000,
        x as u64 as u128 == x % 0x1_0000_0000_0000_0000,
        (x >> 64u128) as u64 == x / 0x1_0000_0000_0000_0000,
{
    assert(x >> 64u128 == x / 0x1_0000_0000_0000_0000 && x as u64 as u128 == x
        % 0x1_0000_0000_0000_0000) by (bit_vector);
}

/// The lower 32 bits of a `u128`.
pub proof fn lemma_u128_split32(x: u128)
    ensures
        (x as u32) as u64 == x % 0x1_0000_0000,
{
    assert((x as u32) as u64 == x % 0x1_0000_0000) by (bit_vector);
}

/// Joining a number with 32 lower bits into a `u128`.
pub proof fn lemma_u128_join32(hi: u128, lo: u128)
    requires
        hi < 0x1_0000_0000_0000_0000_0000_0000,
        lo < 0x1_0000_0000,
    ensures
        (hi << 32u128) | lo == hi * 0x1_0000_0000 + lo,
{
    assert((hi << 32u128) | lo == hi * 0x1_0000_0000 + lo) by (bit_vector)
        requires
            hi < 0x1_0000_0000_0000_0000_0000_0000,
            lo < 0x1_0000_0000,
    ;
}

/// Joining two 64-bit halves into a `u128`.
pub proof fn lemma_u128_join64(hi: u128, lo: u128)
    requires
        hi < 0x1_0000_0000_0000_0000,
        lo < 0x1_0000_0000_0000_0000,
    ensures
        (hi << 64u128) | lo == hi * 0x1_0000_0000_0000_0000 + lo,
{
    assert((hi << 64u128) | lo == hi * 0x1_0000_0000_0000_0000 + lo) by (bit_vector)
        requires
            hi < 0x1_0000_0000_0000_0000,
            lo < 0x1_0000_0000_0000_0000,
    ;
}

/// Shifting a `u64` left by `s` in place: the bits shifted in, and those shifted out.
pub proof fn lemma_u64_shift_fill(x: u64, s: u64)
    requires
        0 < s < 64,
    ensures
        (x << s) | (u64::MAX >> (64 - s) as u64) == (x << s) + (u64::MAX >> (64 - s) as u64),
        u64::MAX << s == u64::MAX - (u64::MAX >> (64 - s) as u64),
{
    assert((x << s) | (u64::MAX >> (64 - s) as u64) == (x << s) + (u64::MAX >> (64 - s) as u64)
        && u64::MAX << s == u64::MAX - (u64::MAX >> (64 - s) as u64)) by (bit_vector)
        requires
            0 < s < 64,
    ;
}

/// `u64::MAX >> (64 - s)` is `pow2(s) - 1`.
pub proof fn lemma_u64_low_mask(s: u64)
    requires
        0 < s < 64,
    ensures
        u64::MAX >> (64 - s) as u64 == pow2(s as nat) - 1,
{
    lemma_u64_shr_is_div(u64::MAX, (64 - s) as u64);
    lemma_pow2_adds(s as nat, (64 - s) as nat);
    lemma_pow2_pos((64 - s) as nat);
    lemma2_to64();
    let a = pow2(s as nat) as int;
    let b = pow2((64 - s) as nat) as int;
    assert(a * b == 0x1_0000_0000_0000_0000);
    assert((a * b - 1) / b == a - 1) by (nonlinear_arith)
        requires
            b > 0,
    {
        vstd::arithmetic::div_mod::lemma_fundamental_div_mod_converse(a * b - 1, b, a - 1, b - 1);
    }
}

/// Shifting a `u64` left without losing bits multiplies it by a power of two.
pub proof fn lemma_u64_shl(x: u64, s: u64)
    requires
        s < 64,
        x * pow2(s as nat) <= u64::MAX,
    ensures
        x << s == x * pow2(s as nat),
{
    lemma_u64_shl_is_mul(x, s);
}

/// A non-zero `u64` with a single set bit is the power of two its trailing zeros name:
/// shifting by them divides by it, and masking below it takes the remainder.
pub proof fn lemma_u64_power_of_two(d: u64, n: u64)
    requires
        d != 0,
        d & ((d - 1) as u64) == 0,
    ensures
        u64_trailing_zeros(d) < 64,
        d == pow2(u64_trailing_zeros(d) as nat),
        n >> u64_trailing_zeros(d) == n / d,
        n & ((d - 1) as u64) == n % d,
{
    axiom_u64_trailing_zeros(d);
    let t = u64_trailing_zeros(d);
    let ts = t as u64;
    assert(d == 1u64 << ts) by (bit_vector)
        requires
            d != 0,
            d & ((d - 1) as u64) == 0,
            ts < 64,
            (d >> ts) & 1u64 == 1u64,
    ;
    lemma_u64_pow2_no_overflow(ts as nat);
    lemma_u64_shl_is_mul(1, ts);
    lemma_u64_shr_is_div(n, ts);
    lemma_u64_low_bits_mask_is_mod(n, ts as nat);
}

/// A non-zero `u8` with a single set bit is the power of two its trailing zeros name:
/// shifting by them divides by it, and masking below it takes the remainder.
pub proof fn lemma_u8_power_of_two(d: u8, n: u8)
    requires
        d != 0,
        d & ((d - 1) as u8) == 0,
    ensures
        u8_trailing_zeros(d) < 8,
        d == pow2(u8_trailing_zeros(d) as nat),
        n >> u8_trailing_zeros(d) == n / d,
        n & ((d - 1) as u8) == n % d,
{
    axiom_u8_trailing_zeros(d);
    let t = u8_trailing_zeros(d);
    let ts = t as u8;
    assert(d == 1u8 << ts) by (bit_vector)
        requires
            d != 0,
            d & ((d - 1) as u8) == 0,
            ts < 8,
            (d >> ts) & 1u8 == 1u8,
    ;
    lemma_u8_pow2_no_overflow(ts as nat);
    lemma_u8_shl_is_mul(1, ts);
    lemma_u8_shr_is_div(n, ts);
    lemma_u8_low_bits_mask_is_mod(n, ts as nat);
}

/// A non-zero `u16` with a single set bit is the power of two its trailing zeros name:
/// shifting by them divides by it, and masking below it takes the remainder.
pub proof fn lemma_u16_power_of_two(d: u16, n: u16)
    requires
        d != 0,
        d & ((d - 1) as u16) == 0,
    ensures
        u16_trailing_zeros(d) < 16,
        d == pow2(u16_trailing_zeros(d) as nat),
        n >> u16_trailing_zeros(d) == n / d,
        n & ((d - 1) as u16) == n % d,
{
    axiom_u16_trailing_zeros(d);
    let t = u16_trailing_zeros(d);
    let ts = t as u16;
    assert(d == 1u16 << ts) by (bit_vector)
        requires
            d != 0,
            d & ((d - 1) as u16) == 0,
            ts < 16,
            (d >> ts) & 1u16 == 1u16,
    ;
    lemma_u16_pow2_no_overflow(ts as nat);
    lemma_u16_shl_is_mul(1, ts);
    lemma_u16_shr_is_div(n, ts);
    lemma_u16_low_bits_mask_is_mod(n, ts as nat);
}

/// A non-zero `u32` with a single set bit is the power of two its trailing zeros name:
/// shifting by them divides by it, and masking below it takes the remainder.
pub proof fn lemma_u32_power_of_two(d: u32, n: u32)
    requires
        d != 0,
        d & ((d - 1) as u32) == 0,
    ensures
        u32_trailing_zeros(d) < 32,
        d == pow2(u32_trailing_zeros(d) as nat),
        n >> u32_trailing_zeros(d) == n / d,
        n & ((d - 1) as u32) == n % d,
{
    axiom_u32_trailing_zeros(d);
    let t = u32_trailing_zeros(d);
    let ts = t as u32;
    assert(d == 1u32 << ts) by (bit_vector)
        requires
            d != 0,
            d & ((d - 1) as u32) == 0,
            ts < 32,
            (d >> ts) & 1u32 == 1u32,
    ;
    lemma_u32_pow2_no_overflow(ts as nat);
    lemma_u32_shl_is_mul(1, ts);
    lemma_u32_shr_is_div(n, ts);
    lemma_u32_low_bits_mask_is_mod(n, ts as nat);
}


/// The length of a positive number is the one power of two range it lies in.
pub proof fn lemma_bit_len_unique(x: nat, k: nat)
    requires
        k > 0,
        pow2((k - 1) as nat) <= x < pow2(k),
    ensures
        bit_len(x) == k,
{
    lemma_pow2_pos((k - 1) as nat);
    lemma_bit_len_bounds(x);
    let b = bit_len(x);
    if b < k {
        if b < k - 1 {
            lemma_pow2_strictly_increases(b, (k - 1) as nat);
        }
    } else if b > k {
        if b - 1 > k {
            lemma_pow2_strictly_increases(k, (b - 1) as nat);
        }
    }
}

/// Shifting a `u128` left without losing bits multiplies it by a power of two.
pub proof fn lemma_u128_shl(x: u128, s: u128)
    requires
        s < 128,
        x * pow2(s as nat) <= u128::MAX,
    ensures
        x << s == x * pow2(s as nat),
    decreases s,
{
    lemma2_to64();
    if s == 0 {
        assert(x << 0u128 == x) by (bit_vector);
        assert(x * pow2(0) == x);
    } else {
        let t = (s - 1) as u128;
        lemma_pow2_pos(t as nat);
        assert(x * pow2(t as nat) <= x * pow2(t as nat) * 2) by (nonlinear_arith)
            requires
                pow2(t as nat) > 0,
        ;
        lemma_pow2_adds(t as nat, 1);
        lemma_pow2_pos(t as nat);
        assert(x * pow2(t as nat) * 2 == x * pow2(s as nat)) by (nonlinear_arith)
            requires
                pow2(s as nat) == pow2(t as nat) * 2,
        ;
        lemma_u128_shl(x, t);
        let y = x << t;
        assert(y < 0x8000_0000_0000_0000_0000_0000_0000_0000);
        assert(x << s == (y << 1u128) && (y << 1u128) == y * 2) by (bit_vector)
            requires
                0 < s < 128,
                t == s - 1,
                y == x << t,
                y < 0x8000_0000_0000_0000_0000_0000_0000_0000,
        ;
    }
}


/// A `u128` with a single set bit has it in one of its 64-bit halves, where it is again
/// the single set bit, and the other half is zero.
pub proof fn lemma_u128_single_bit_halves(x: u128)
    requires
        x != 0,
        x & ((x - 1) as u128) == 0,
    ensures
        (x as u64) != 0 ==> (x >> 64u128) == 0 && (x as u64) & (((x as u64) - 1) as u64) == 0,
        (x as u64) == 0 ==> ((x >> 64u128) as u64) != 0 && ((x >> 64u128) as u64) & ((((x
            >> 64u128) as u64) - 1) as u64) == 0,
{
    assert(((x as u64) != 0 ==> (x >> 64u128) == 0 && (x as u64) & (((x as u64) - 1) as u64) == 0)
        && ((x as u64) == 0 ==> ((x >> 64u128) as u64) != 0 && ((x >> 64u128) as u64) & ((((x
        >> 64u128) as u64) - 1) as u64) == 0)) by (bit_vector)
        requires
            x != 0,
            x & ((x - 1) as u128) == 0,
    ;
}

/// Powers of two below `2^128` fit a `u128`.
pub proof fn lemma_u128_pow2(t: nat)
    requires
        t < 128,
    ensures
        pow2(t) <= 0x8000_0000_0000_0000_0000_0000_0000_0000,
{
    lemma2_to64();
    vstd::arithmetic::power2::lemma2_to64_rest();
    lemma_pow2_adds(63, 64);
    if t < 127 {
        lemma_pow2_strictly_increases(t, 127);
    }
}

} // verus!
