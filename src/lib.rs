//! Division and remainder by a divisor that is only known at run time, reduced once to
//! a multiplier so that each later division is a multiplication and a shift.
use vstd::prelude::*;
use crate::arith::{reciprocal, lemma_reciprocal, lemma_split_product};
use crate::bits::{
    lemma_u8_power_of_two, lemma_u16_power_of_two, lemma_u32_power_of_two, lemma_u64_power_of_two,
    lemma_u16_split, lemma_u32_split, lemma_u64_split, lemma_u128_split,
};
use crate::long_multiplication::word_pow;
use crate::selector::{Algorithm, algorithm_of, select_algorithm};
use vstd::arithmetic::power2::pow2;

pub mod arith;
pub mod bits;
pub mod long_division;
pub mod long_multiplication;
pub mod selector;

verus! {

/// Implements unsigned division and modulo via multiplication and shifts.
///
/// Creating an instance costs more than a single division; each later division and
/// remainder by it is several times cheaper.
#[derive(Clone, Copy, Debug)]
pub struct StrengthReducedU8 {
    multiplier: u16,
    divisor: u8,
}

impl View for StrengthReducedU8 {
    type V = u8;

    /// The divisor this value was made from.
    closed spec fn view(&self) -> u8 {
        self.divisor
    }
}

impl StrengthReducedU8 {
    /// A power of two is divided by a shift; any other divisor by its reciprocal
    /// multiplier at 16 bits of precision.
    #[verifier::type_invariant]
    spec fn inv(self) -> bool {
        self.divisor > 0 && if self.divisor & ((self.divisor - 1) as u8) == 0 {
            self.multiplier == 0
        } else {
            self.divisor >= 2 && self.multiplier == reciprocal(
                self.divisor as int,
                0x100,
            )
        }
    }

    /// Creates a new divisor instance.
    ///
    /// If possible, avoid calling new() from an inner loop: the intended usage is to
    /// create an instance outside the loop, and use it for division and remainders
    /// inside the loop.
    pub fn new(divisor: u8) -> (r: Self)
        requires
            divisor > 0,
        ensures
            r@ == divisor,
    {
        if divisor & (divisor - 1) == 0 {
            Self { multiplier: 0, divisor }
        } else {
            if divisor == 1 {
                assert(1u8 & 0u8 == 0) by (bit_vector);
            }
            let quotient = u16::MAX / (divisor as u16);
            proof {
                vstd::arithmetic::div_mod::lemma_div_is_ordered_by_denominator(
                    u16::MAX as int,
                    2,
                    divisor as int,
                );
            }
            Self { multiplier: quotient + 1, divisor }
        }
    }

    /// Truncated integer division of `numerator` by the reduced divisor.
    pub fn div(numerator: u8, denom: Self) -> (q: u8)
        ensures
            q == numerator / denom@,
    {
        proof {
            use_type_invariant(&denom);
        }
        if denom.multiplier == 0 {
            proof {
                lemma_u8_power_of_two(denom.divisor, numerator);
            }
            numerator >> denom.divisor.trailing_zeros()
        } else {
            let ghost m = denom.multiplier as int;
            let ghost b = 0x100int;
            proof {
                lemma_u16_split(denom.multiplier);
                lemma_reciprocal(numerator as int, denom.divisor as int, b);
                lemma_split_product(numerator as int, m, b);
                vstd::arithmetic::div_mod::lemma_div_is_ordered_by_denominator(
                    u16::MAX as int,
                    2,
                    denom.divisor as int,
                );
                assert(numerator * (m / b) < 0x8000) by (nonlinear_arith)
                    requires
                        numerator < b,
                        m / b <= 0x80,
                        b == 0x100int,
                ;
                assert(numerator * (m % b) < 0x1_0000) by (nonlinear_arith)
                    requires
                        numerator < b,
                        m % b < b,
                        b == 0x100int,
                ;
            }
            let numerator16 = numerator as u16;
            let multiplied_hi = numerator16 * (denom.multiplier >> 8);
            let product_lo = numerator16 * (#[verifier::truncate] (denom.multiplier as u8)) as u16;
            proof {
                lemma_u16_split(product_lo);
            }
            let multiplied_lo = product_lo >> 8;
            let sum = multiplied_hi + multiplied_lo;
            proof {
                lemma_u16_split(sum);
            }
            (sum >> 8) as u8
        }
    }

    /// Remainder of `numerator` by the reduced divisor.
    pub fn rem(numerator: u8, denom: Self) -> (r: u8)
        ensures
            r == numerator % denom@,
    {
        proof {
            use_type_invariant(&denom);
        }
        if denom.multiplier == 0 {
            proof {
                lemma_u8_power_of_two(denom.divisor, numerator);
            }
            numerator & (denom.divisor - 1)
        } else {
            let quotient = Self::div(numerator, denom);
            proof {
                crate::arith::lemma_quotient_product(numerator as int, denom.divisor as int);
            }
            numerator - quotient * denom.divisor
        }
    }

    /// Simultaneous truncated integer division and modulus.
    /// Returns `(quotient, remainder)`.
    pub fn div_rem(numerator: u8, denom: Self) -> (r: (u8, u8))
        ensures
            r.0 == numerator / denom@,
            r.1 == numerator % denom@,
    {
        proof {
            use_type_invariant(&denom);
        }
        if denom.multiplier == 0 {
            proof {
                lemma_u8_power_of_two(denom.divisor, numerator);
            }
            (numerator >> denom.divisor.trailing_zeros(), numerator & (denom.divisor - 1))
        } else {
            let quotient = Self::div(numerator, denom);
            proof {
                crate::arith::lemma_quotient_product(numerator as int, denom.divisor as int);
            }
            let remainder = numerator - quotient * denom.divisor;
            (quotient, remainder)
        }
    }

    /// Which way the classic derivation would divide by this divisor. Division here does
    /// not depend on it: the multiplier is held at double width, exact in every case.
    pub fn algorithm(&self) -> (r: Algorithm)
        ensures
            r == algorithm_of(self@ as nat, 8),
    {
        proof {
            use_type_invariant(self);
        }
        select_algorithm(self.divisor as u128, 8)
    }

    /// Retrieve the value used to create this struct
    pub fn get(&self) -> (r: u8)
        ensures
            r == self@,
    {
        self.divisor
    }
}

/// Implements unsigned division and modulo via multiplication and shifts.
///
/// Creating an instance costs more than a single division; each later division and
/// remainder by it is several times cheaper.
#[derive(Clone, Copy, Debug)]
pub struct StrengthReducedU16 {
    multiplier: u32,
    divisor: u16,
}

impl View for StrengthReducedU16 {
    type V = u16;

    /// The divisor this value was made from.
    closed spec fn view(&self) -> u16 {
        self.divisor
    }
}

impl StrengthReducedU16 {
    /// A power of two is divided by a shift; any other divisor by its reciprocal
    /// multiplier at 32 bits of precision.
    #[verifier::type_invariant]
    spec fn inv(self) -> bool {
        self.divisor > 0 && if self.divisor & ((self.divisor - 1) as u16) == 0 {
            self.multiplier == 0
        } else {
            self.divisor >= 2 && self.multiplier == reciprocal(
                self.divisor as int,
                0x1_0000,
            )
        }
    }

    /// Creates a new divisor instance.
    ///
    /// If possible, avoid calling new() from an inner loop: the intended usage is to
    /// create an instance outside the loop, and use it for division and remainders
    /// inside the loop.
    pub fn new(divisor: u16) -> (r: Self)
        requires
            divisor > 0,
        ensures
            r@ == divisor,
    {
        if divisor & (divisor - 1) == 0 {
            Self { multiplier: 0, divisor }
        } else {
            if divisor == 1 {
                assert(1u16 & 0u16 == 0) by (bit_vector);
            }
            let quotient = u32::MAX / (divisor as u32);
            proof {
                vstd::arithmetic::div_mod::lemma_div_is_ordered_by_denominator(
                    u32::MAX as int,
                    2,
                    divisor as int,
                );
            }
            Self { multiplier: quotient + 1, divisor }
        }
    }

    /// Truncated integer division of `numerator` by the reduced divisor.
    pub fn div(numerator: u16, denom: Self) -> (q: u16)
        ensures
            q == numerator / denom@,
    {
        proof {
            use_type_invariant(&denom);
        }
        if denom.multiplier == 0 {
            proof {
                lemma_u16_power_of_two(denom.divisor, numerator);
            }
            numerator >> denom.divisor.trailing_zeros()
        } else {
            let ghost m = denom.multiplier as int;
            let ghost b = 0x1_0000int;
            proof {
                lemma_u32_split(denom.multiplier);
                lemma_reciprocal(numerator as int, denom.divisor as int, b);
                lemma_split_product(numerator as int, m, b);
                vstd::arithmetic::div_mod::lemma_div_is_ordered_by_denominator(
                    u32::MAX as int,
                    2,
                    denom.divisor as int,
                );
                assert(numerator * (m / b) < 0x8000_0000) by (nonlinear_arith)
                    requires
                        numerator < b,
                        m / b <= 0x8000,
                        b == 0x1_0000int,
                ;
                assert(numerator * (m % b) < 0x1_0000_0000) by (nonlinear_arith)
                    requires
                        numerator < b,
                        m % b < b,
                        b == 0x1_0000int,
                ;
            }
            let numerator32 = numerator as u32;
            let multiplied_hi = numerator32 * (denom.multiplier >> 16);
            let product_lo = numerator32 * (#[verifier::truncate] (denom.multiplier as u16)) as u32;
            proof {
                lemma_u32_split(product_lo);
            }
            let multiplied_lo = product_lo >> 16;
            let sum = multiplied_hi + multiplied_lo;
            proof {
                lemma_u32_split(sum);
            }
            (sum >> 16) as u16
        }
    }

    /// Remainder of `numerator` by the reduced divisor.
    pub fn rem(numerator: u16, denom: Self) -> (r: u16)
        ensures
            r == numerator % denom@,
    {
        proof {
            use_type_invariant(&denom);
        }
        if denom.multiplier == 0 {
            proof {
                lemma_u16_power_of_two(denom.divisor, numerator);
            }
            numerator & (denom.divisor - 1)
        } else {
            let quotient = Self::div(numerator, denom);
            proof {
                crate::arith::lemma_quotient_product(numerator as int, denom.divisor as int);
            }
            numerator - quotient * denom.divisor
        }
    }

    /// Simultaneous truncated integer division and modulus.
    /// Returns `(quotient, remainder)`.
    pub fn div_rem(numerator: u16, denom: Self) -> (r: (u16, u16))
        ensures
            r.0 == numerator / denom@,
            r.1 == numerator % denom@,
    {
        proof {
            use_type_invariant(&denom);
        }
        if denom.multiplier == 0 {
            proof {
                lemma_u16_power_of_two(denom.divisor, numerator);
            }
            (numerator >> denom.divisor.trailing_zeros(), numerator & (denom.divisor - 1))
        } else {
            let quotient = Self::div(numerator, denom);
            proof {
                crate::arith::lemma_quotient_product(numerator as int, denom.divisor as int);
            }
            let remainder = numerator - quotient * denom.divisor;
            (quotient, remainder)
        }
    }

    /// Which way the classic derivation would divide by this divisor. Division here does
    /// not depend on it: the multiplier is held at double width, exact in every case.
    pub fn algorithm(&self) -> (r: Algorithm)
        ensures
            r == algorithm_of(self@ as nat, 16),
    {
        proof {
            use_type_invariant(self);
        }
        select_algorithm(self.divisor as u128, 16)
    }

    /// Retrieve the value used to create this struct
    pub fn get(&self) -> (r: u16)
        ensures
            r == self@,
    {
        self.divisor
    }
}

/// Implements unsigned division and modulo via multiplication and shifts.
///
/// Creating an instance costs more than a single division; each later division and
/// remainder by it is several times cheaper.
#[derive(Clone, Copy, Debug)]
pub struct StrengthReducedU32 {
    multiplier: u64,
    divisor: u32,
}

impl View for StrengthReducedU32 {
    type V = u32;

    /// The divisor this value was made from.
    closed spec fn view(&self) -> u32 {
        self.divisor
    }
}

impl StrengthReducedU32 {
    /// A power of two is divided by a shift; any other divisor by its reciprocal
    /// multiplier at 64 bits of precision.
    #[verifier::type_invariant]
    spec fn inv(self) -> bool {
        self.divisor > 0 && if self.divisor & ((self.divisor - 1) as u32) == 0 {
            self.multiplier == 0
        } else {
            self.divisor >= 2 && self.multiplier == reciprocal(
                self.divisor as int,
                0x1_0000_0000,
            )
        }
    }

    /// Creates a new divisor instance.
    ///
    /// If possible, avoid calling new() from an inner loop: the intended usage is to
    /// create an instance outside the loop, and use it for division and remainders
    /// inside the loop.
    pub fn new(divisor: u32) -> (r: Self)
        requires
            divisor > 0,
        ensures
            r@ == divisor,
    {
        if divisor & (divisor - 1) == 0 {
            Self { multiplier: 0, divisor }
        } else {
            if divisor == 1 {
                assert(1u32 & 0u32 == 0) by (bit_vector);
            }
            let quotient = u64::MAX / (divisor as u64);
            proof {
                vstd::arithmetic::div_mod::lemma_div_is_ordered_by_denominator(
                    u64::MAX as int,
                    2,
                    divisor as int,
                );
            }
            Self { multiplier: quotient + 1, divisor }
        }
    }

    /// Truncated integer division of `numerator` by the reduced divisor.
    pub fn div(numerator: u32, denom: Self) -> (q: u32)
        ensures
            q == numerator / denom@,
    {
        proof {
            use_type_invariant(&denom);
        }
        if denom.multiplier == 0 {
            proof {
                lemma_u32_power_of_two(denom.divisor, numerator);
            }
            numerator >> denom.divisor.trailing_zeros()
        } else {
            let ghost m = denom.multiplier as int;
            let ghost b = 0x1_0000_0000int;
            proof {
                lemma_u64_split(denom.multiplier);
                lemma_reciprocal(numerator as int, denom.divisor as int, b);
                lemma_split_product(numerator as int, m, b);
                vstd::arithmetic::div_mod::lemma_div_is_ordered_by_denominator(
                    u64::MAX as int,
                    2,
                    denom.divisor as int,
                );
                assert(numerator * (m / b) < 0x8000_0000_0000_0000) by (nonlinear_arith)
                    requires
                        numerator < b,
                        m / b <= 0x8000_0000,
                        b == 0x1_0000_0000int,
                ;
                assert(numerator * (m % b) < 0x1_0000_0000_0000_0000) by (nonlinear_arith)
                    requires
                        numerator < b,
                        m % b < b,
                        b == 0x1_0000_0000int,
                ;
            }
            let numerator64 = numerator as u64;
            let multiplied_hi = numerator64 * (denom.multiplier >> 32);
            let product_lo = numerator64 * (#[verifier::truncate] (denom.multiplier as u32)) as u64;
            proof {
                lemma_u64_split(product_lo);
            }
            let multiplied_lo = product_lo >> 32;
            let sum = multiplied_hi + multiplied_lo;
            proof {
                lemma_u64_split(sum);
            }
            (sum >> 32) as u32
        }
    }

    /// Remainder of `numerator` by the reduced divisor.
    pub fn rem(numerator: u32, denom: Self) -> (r: u32)
        ensures
            r == numerator % denom@,
    {
        proof {
            use_type_invariant(&denom);
        }
        if denom.multiplier == 0 {
            proof {
                lemma_u32_power_of_two(denom.divisor, numerator);
            }
            numerator & (denom.divisor - 1)
        } else {
            let quotient = Self::div(numerator, denom);
            proof {
                crate::arith::lemma_quotient_product(numerator as int, denom.divisor as int);
            }
            numerator - quotient * denom.divisor
        }
    }

    /// Simultaneous truncated integer division and modulus.
    /// Returns `(quotient, remainder)`.
    pub fn div_rem(numerator: u32, denom: Self) -> (r: (u32, u32))
        ensures
            r.0 == numerator / denom@,
            r.1 == numerator % denom@,
    {
        proof {
            use_type_invariant(&denom);
        }
        if denom.multiplier == 0 {
            proof {
                lemma_u32_power_of_two(denom.divisor, numerator);
            }
            (numerator >> denom.divisor.trailing_zeros(), numerator & (denom.divisor - 1))
        } else {
            let quotient = Self::div(numerator, denom);
            proof {
                crate::arith::lemma_quotient_product(numerator as int, denom.divisor as int);
            }
            let remainder = numerator - quotient * denom.divisor;
            (quotient, remainder)
        }
    }

    /// Which way the classic derivation would divide by this divisor. Division here does
    /// not depend on it: the multiplier is held at double width, exact in every case.
    pub fn algorithm(&self) -> (r: Algorithm)
        ensures
            r == algorithm_of(self@ as nat, 32),
    {
        proof {
            use_type_invariant(self);
        }
        select_algorithm(self.divisor as u128, 32)
    }

    /// Retrieve the value used to create this struct
    pub fn get(&self) -> (r: u32)
        ensures
            r == self@,
    {
        self.divisor
    }
}

/// Implements unsigned division and modulo via multiplication and shifts.
///
/// Creating an instance costs more than a single division; each later division and
/// remainder by it is several times cheaper.
#[derive(Clone, Copy, Debug)]
pub struct StrengthReducedU64 {
    multiplier: u128,
    divisor: u64,
}

impl View for StrengthReducedU64 {
    type V = u64;

    /// The divisor this value was made from.
    closed spec fn view(&self) -> u64 {
        self.divisor
    }
}

impl StrengthReducedU64 {
    /// A power of two is divided by a shift; any other divisor by its reciprocal
    /// multiplier at 128 bits of precision.
    #[verifier::type_invariant]
    spec fn inv(self) -> bool {
        self.divisor > 0 && if self.divisor & ((self.divisor - 1) as u64) == 0 {
            self.multiplier == 0
        } else {
            self.divisor >= 2 && self.multiplier == reciprocal(
                self.divisor as int,
                0x1_0000_0000_0000_0000,
            )
        }
    }

    /// Creates a new divisor instance.
    ///
    /// If possible, avoid calling new() from an inner loop: the intended usage is to
    /// create an instance outside the loop, and use it for division and remainders
    /// inside the loop.
    pub fn new(divisor: u64) -> (r: Self)
        requires
            divisor > 0,
        ensures
            r@ == divisor,
    {
        if divisor & (divisor - 1) == 0 {
            Self { multiplier: 0, divisor }
        } else {
            if divisor == 1 {
                assert(1u64 & 0u64 == 0) by (bit_vector);
            }
            let quotient = long_division::divide_128_max_by_64(divisor);
            proof {
                vstd::arithmetic::div_mod::lemma_div_is_ordered_by_denominator(
                    u128::MAX as int,
                    2,
                    divisor as int,
                );
            }
            Self { multiplier: quotient + 1, divisor }
        }
    }

    /// Truncated integer division of `numerator` by the reduced divisor.
    pub fn div(numerator: u64, denom: Self) -> (q: u64)
        ensures
            q == numerator / denom@,
    {
        proof {
            use_type_invariant(&denom);
        }
        if denom.multiplier == 0 {
            proof {
                lemma_u64_power_of_two(denom.divisor, numerator);
            }
            numerator >> denom.divisor.trailing_zeros()
        } else {
            let ghost m = denom.multiplier as int;
            let ghost b = 0x1_0000_0000_0000_0000int;
            proof {
                lemma_u128_split(denom.multiplier);
                lemma_reciprocal(numerator as int, denom.divisor as int, b);
                lemma_split_product(numerator as int, m, b);
                vstd::arithmetic::div_mod::lemma_div_is_ordered_by_denominator(
                    u128::MAX as int,
                    2,
                    denom.divisor as int,
                );
                assert(numerator * (m / b) < 0x8000_0000_0000_0000_0000_0000_0000_0000) by (nonlinear_arith)
                    requires
                        numerator < b,
                        m / b <= 0x8000_0000_0000_0000,
                        b == 0x1_0000_0000_0000_0000int,
                ;
                assert(numerator * (m % b) < 0x1_0000_0000_0000_0000_0000_0000_0000_0000) by (nonlinear_arith)
                    requires
                        numerator < b,
                        m % b < b,
                        b == 0x1_0000_0000_0000_0000int,
                ;
            }
            let numerator128 = numerator as u128;
            let multiplied_hi = numerator128 * (denom.multiplier >> 64);
            let product_lo = numerator128 * (#[verifier::truncate] (denom.multiplier as u64)) as u128;
            proof {
                lemma_u128_split(product_lo);
            }
            let multiplied_lo = product_lo >> 64;
            let sum = multiplied_hi + multiplied_lo;
            proof {
                lemma_u128_split(sum);
            }
            (sum >> 64) as u64
        }
    }

    /// Remainder of `numerator` by the reduced divisor.
    pub fn rem(numerator: u64, denom: Self) -> (r: u64)
        ensures
            r == numerator % denom@,
    {
        proof {
            use_type_invariant(&denom);
        }
        if denom.multiplier == 0 {
            proof {
                lemma_u64_power_of_two(denom.divisor, numerator);
            }
            numerator & (denom.divisor - 1)
        } else {
            let quotient = Self::div(numerator, denom);
            proof {
                crate::arith::lemma_quotient_product(numerator as int, denom.divisor as int);
            }
            numerator - quotient * denom.divisor
        }
    }

    /// Simultaneous truncated integer division and modulus.
    /// Returns `(quotient, remainder)`.
    pub fn div_rem(numerator: u64, denom: Self) -> (r: (u64, u64))
        ensures
            r.0 == numerator / denom@,
            r.1 == numerator % denom@,
    {
        proof {
            use_type_invariant(&denom);
        }
        if denom.multiplier == 0 {
            proof {
                lemma_u64_power_of_two(denom.divisor, numerator);
            }
            (numerator >> denom.divisor.trailing_zeros(), numerator & (denom.divisor - 1))
        } else {
            let quotient = Self::div(numerator, denom);
            proof {
                crate::arith::lemma_quotient_product(numerator as int, denom.divisor as int);
            }
            let remainder = numerator - quotient * denom.divisor;
            (quotient, remainder)
        }
    }

    /// Which way the classic derivation would divide by this divisor. Division here does
    /// not depend on it: the multiplier is held at double width, exact in every case.
    pub fn algorithm(&self) -> (r: Algorithm)
        ensures
            r == algorithm_of(self@ as nat, 64),
    {
        proof {
            use_type_invariant(self);
        }
        select_algorithm(self.divisor as u128, 64)
    }

    /// Retrieve the value used to create this struct
    pub fn get(&self) -> (r: u64)
        ensures
            r == self@,
    {
        self.divisor
    }
}

/// Implements unsigned division and modulo via multiplication and shifts.
///
/// Creating an instance costs more than a single division; each later division and
/// remainder by it is several times cheaper.
#[derive(Clone, Copy, Debug)]
pub struct StrengthReducedU128 {
    multiplier_hi: u128,
    multiplier_lo: u128,
    divisor: u128,
}

impl View for StrengthReducedU128 {
    type V = u128;

    /// The divisor this value was made from.
    closed spec fn view(&self) -> u128 {
        self.divisor
    }
}

impl StrengthReducedU128 {
    /// A power of two is divided by a shift; any other divisor by its reciprocal
    /// multiplier at 256 bits of precision, held in two halves.
    #[verifier::type_invariant]
    spec fn inv(self) -> bool {
        self.divisor > 0 && if self.divisor & ((self.divisor - 1) as u128) == 0 {
            self.multiplier_hi == 0 && self.multiplier_lo == 0
        } else {
            self.divisor >= 2 && self.multiplier_hi > 0 && self.multiplier_hi as int
                * 0x1_0000_0000_0000_0000_0000_0000_0000_0000int + self.multiplier_lo == reciprocal(
                self.divisor as int,
                0x1_0000_0000_0000_0000_0000_0000_0000_0000int,
            )
        }
    }

    /// Creates a new divisor instance.
    ///
    /// If possible, avoid calling new() from an inner loop: the intended usage is to
    /// create an instance outside the loop, and use it for division and remainders
    /// inside the loop.
    pub fn new(divisor: u128) -> (r: Self)
        requires
            divisor > 0,
        ensures
            r@ == divisor,
    {
        if divisor & (divisor - 1) == 0 {
            Self { multiplier_hi: 0, multiplier_lo: 0, divisor }
        } else {
            if divisor == 1 {
                assert(1u128 & 0u128 == 0) by (bit_vector);
            }
            let (quotient_hi, quotient_lo) = long_division::divide_256_max_by_128(divisor);
            let ghost b = 0x1_0000_0000_0000_0000_0000_0000_0000_0000int;
            proof {
                reveal_with_fuel(word_pow, 5);
                assert(word_pow(4) - 1 == b * b - 1);
                vstd::arithmetic::div_mod::lemma_div_is_ordered_by_denominator(b * b - 1, 2, divisor as int);
                vstd::arithmetic::div_mod::lemma_div_is_ordered_by_denominator(b * b - 1, divisor as int, b - 1);
                vstd::arithmetic::div_mod::lemma_fundamental_div_mod_converse(b * b - 1, b - 1, b + 1, 0);
            }
            let multiplier_lo = quotient_lo.wrapping_add(1);
            let multiplier_hi = if multiplier_lo == 0 {
                quotient_hi + 1
            } else {
                quotient_hi
            };
            Self { multiplier_hi, multiplier_lo, divisor }
        }
    }

    /// Truncated integer division of `numerator` by the reduced divisor.
    pub fn div(numerator: u128, denom: Self) -> (q: u128)
        ensures
            q == numerator / denom@,
    {
        proof {
            use_type_invariant(&denom);
        }
        if denom.multiplier_hi == 0 {
            let shift = long_division::trailing_zeros_u128(denom.divisor);
            proof {
                vstd::bits::lemma_u128_shr_is_div(numerator, shift as u128);
            }
            numerator >> (shift as u128)
        } else {
            proof {
                reveal_with_fuel(word_pow, 5);
                crate::arith::lemma_reciprocal(
                    numerator as int,
                    denom.divisor as int,
                    0x1_0000_0000_0000_0000_0000_0000_0000_0000int,
                );
            }
            long_multiplication::multiply_256_by_128_upperbits(
                denom.multiplier_hi,
                denom.multiplier_lo,
                numerator,
            )
        }
    }

    /// Remainder of `numerator` by the reduced divisor.
    pub fn rem(numerator: u128, denom: Self) -> (r: u128)
        ensures
            r == numerator % denom@,
    {
        proof {
            use_type_invariant(&denom);
        }
        let quotient = Self::div(numerator, denom);
        proof {
            crate::arith::lemma_quotient_product(numerator as int, denom.divisor as int);
        }
        numerator - quotient * denom.divisor
    }

    /// Simultaneous truncated integer division and modulus.
    /// Returns `(quotient, remainder)`.
    pub fn div_rem(numerator: u128, denom: Self) -> (r: (u128, u128))
        ensures
            r.0 == numerator / denom@,
            r.1 == numerator % denom@,
    {
        proof {
            use_type_invariant(&denom);
        }
        let quotient = Self::div(numerator, denom);
        proof {
            crate::arith::lemma_quotient_product(numerator as int, denom.divisor as int);
        }
        let remainder = numerator - quotient * denom.divisor;
        (quotient, remainder)
    }

    /// Which way the classic derivation would divide by this divisor. Division here does
    /// not depend on it: the multiplier is held at double width, exact in every case.
    pub fn algorithm(&self) -> (r: Algorithm)
        ensures
            r == algorithm_of(self@ as nat, 128),
    {
        proof {
            use_type_invariant(self);
        }
        select_algorithm(self.divisor as u128, 128)
    }

    /// Retrieve the value used to create this struct
    pub fn get(&self) -> (r: u128)
        ensures
            r == self@,
    {
        self.divisor
    }
}

/// Implements unsigned division and modulo of `usize` via multiplication and shifts,
/// with the 64-bit reduction underneath.
#[derive(Clone, Copy, Debug)]
pub struct StrengthReducedUsize {
    reduced: StrengthReducedU64,
}

impl View for StrengthReducedUsize {
    type V = usize;

    /// The divisor this value was made from.
    closed spec fn view(&self) -> usize {
        self.reduced@ as usize
    }
}

impl StrengthReducedUsize {
    /// The divisor underneath fits a `usize`.
    #[verifier::type_invariant]
    spec fn inv(self) -> bool {
        self.reduced@ <= usize::MAX
    }

    /// Creates a new divisor instance.
    pub fn new(divisor: usize) -> (r: Self)
        requires
            divisor > 0,
        ensures
            r@ == divisor,
    {
        Self { reduced: StrengthReducedU64::new(divisor as u64) }
    }

    /// Truncated integer division of `numerator` by the reduced divisor.
    pub fn div(numerator: usize, denom: Self) -> (q: usize)
        ensures
            q == numerator / denom@,
    {
        proof {
            use_type_invariant(&denom);
            use_type_invariant(&denom.reduced);
            crate::arith::lemma_quotient_product(numerator as int, denom.reduced@ as int);
        }
        let q = StrengthReducedU64::div(numerator as u64, denom.reduced);
        proof {
            vstd::arithmetic::div_mod::lemma_div_is_ordered_by_denominator(numerator as int, 1, denom.reduced@ as int);
        }
        q as usize
    }

    /// Remainder of `numerator` by the reduced divisor.
    pub fn rem(numerator: usize, denom: Self) -> (r: usize)
        ensures
            r == numerator % denom@,
    {
        proof {
            use_type_invariant(&denom);
            use_type_invariant(&denom.reduced);
            crate::arith::lemma_quotient_product(numerator as int, denom.reduced@ as int);
        }
        StrengthReducedU64::rem(numerator as u64, denom.reduced) as usize
    }

    /// Simultaneous truncated integer division and modulus.
    /// Returns `(quotient, remainder)`.
    pub fn div_rem(numerator: usize, denom: Self) -> (r: (usize, usize))
        ensures
            r.0 == numerator / denom@,
            r.1 == numerator % denom@,
    {
        proof {
            use_type_invariant(&denom);
            use_type_invariant(&denom.reduced);
            crate::arith::lemma_quotient_product(numerator as int, denom.reduced@ as int);
        }
        let (q, r) = StrengthReducedU64::div_rem(numerator as u64, denom.reduced);
        proof {
            vstd::arithmetic::div_mod::lemma_div_is_ordered_by_denominator(numerator as int, 1, denom.reduced@ as int);
        }
        (q as usize, r as usize)
    }

    /// Retrieve the value used to create this struct
    pub fn get(&self) -> (r: usize)
        ensures
            r == self@,
    {
        proof {
            use_type_invariant(self);
        }
        self.reduced.get() as usize
    }
}

impl core::ops::Div<StrengthReducedU8> for u8 {
    type Output = u8;

    fn div(self, rhs: StrengthReducedU8) -> u8 {
        StrengthReducedU8::div(self, rhs)
    }
}

impl vstd::std_specs::ops::DivSpecImpl<StrengthReducedU8> for u8 {
    open spec fn obeys_div_spec() -> bool {
        true
    }

    open spec fn div_req(self, rhs: StrengthReducedU8) -> bool {
        true
    }

    open spec fn div_spec(self, rhs: StrengthReducedU8) -> u8 {
        self / rhs@
    }
}

impl core::ops::Rem<StrengthReducedU8> for u8 {
    type Output = u8;

    fn rem(self, rhs: StrengthReducedU8) -> u8 {
        StrengthReducedU8::rem(self, rhs)
    }
}

impl vstd::std_specs::ops::RemSpecImpl<StrengthReducedU8> for u8 {
    open spec fn obeys_rem_spec() -> bool {
        true
    }

    open spec fn rem_req(self, rhs: StrengthReducedU8) -> bool {
        true
    }

    open spec fn rem_spec(self, rhs: StrengthReducedU8) -> u8 {
        self % rhs@
    }
}

impl core::ops::Div<StrengthReducedU16> for u16 {
    type Output = u16;

    fn div(self, rhs: StrengthReducedU16) -> u16 {
        StrengthReducedU16::div(self, rhs)
    }
}

impl vstd::std_specs::ops::DivSpecImpl<StrengthReducedU16> for u16 {
    open spec fn obeys_div_spec() -> bool {
        true
    }

    open spec fn div_req(self, rhs: StrengthReducedU16) -> bool {
        true
    }

    open spec fn div_spec(self, rhs: StrengthReducedU16) -> u16 {
        self / rhs@
    }
}

impl core::ops::Rem<StrengthReducedU16> for u16 {
    type Output = u16;

    fn rem(self, rhs: StrengthReducedU16) -> u16 {
        StrengthReducedU16::rem(self, rhs)
    }
}

impl vstd::std_specs::ops::RemSpecImpl<StrengthReducedU16> for u16 {
    open spec fn obeys_rem_spec() -> bool {
        true
    }

    open spec fn rem_req(self, rhs: StrengthReducedU16) -> bool {
        true
    }

    open spec fn rem_spec(self, rhs: StrengthReducedU16) -> u16 {
        self % rhs@
    }
}

impl core::ops::Div<StrengthReducedU32> for u32 {
    type Output = u32;

    fn div(self, rhs: StrengthReducedU32) -> u32 {
        StrengthReducedU32::div(self, rhs)
    }
}

impl vstd::std_specs::ops::DivSpecImpl<StrengthReducedU32> for u32 {
    open spec fn obeys_div_spec() -> bool {
        true
    }

    open spec fn div_req(self, rhs: StrengthReducedU32) -> bool {
        true
    }

    open spec fn div_spec(self, rhs: StrengthReducedU32) -> u32 {
        self / rhs@
    }
}

impl core::ops::Rem<StrengthReducedU32> for u32 {
    type Output = u32;

    fn rem(self, rhs: StrengthReducedU32) -> u32 {
        StrengthReducedU32::rem(self, rhs)
    }
}

impl vstd::std_specs::ops::RemSpecImpl<StrengthReducedU32> for u32 {
    open spec fn obeys_rem_spec() -> bool {
        true
    }

    open spec fn rem_req(self, rhs: StrengthReducedU32) -> bool {
        true
    }

    open spec fn rem_spec(self, rhs: StrengthReducedU32) -> u32 {
        self % rhs@
    }
}

impl core::ops::Div<StrengthReducedU64> for u64 {
    type Output = u64;

    fn div(self, rhs: StrengthReducedU64) -> u64 {
        StrengthReducedU64::div(self, rhs)
    }
}

impl vstd::std_specs::ops::DivSpecImpl<StrengthReducedU64> for u64 {
    open spec fn obeys_div_spec() -> bool {
        true
    }

    open spec fn div_req(self, rhs: StrengthReducedU64) -> bool {
        true
    }

    open spec fn div_spec(self, rhs: StrengthReducedU64) -> u64 {
        self / rhs@
    }
}

impl core::ops::Rem<StrengthReducedU64> for u64 {
    type Output = u64;

    fn rem(self, rhs: StrengthReducedU64) -> u64 {
        StrengthReducedU64::rem(self, rhs)
    }
}

impl vstd::std_specs::ops::RemSpecImpl<StrengthReducedU64> for u64 {
    open spec fn obeys_rem_spec() -> bool {
        true
    }

    open spec fn rem_req(self, rhs: StrengthReducedU64) -> bool {
        true
    }

    open spec fn rem_spec(self, rhs: StrengthReducedU64) -> u64 {
        self % rhs@
    }
}

impl core::ops::Div<StrengthReducedU128> for u128 {
    type Output = u128;

    fn div(self, rhs: StrengthReducedU128) -> u128 {
        StrengthReducedU128::div(self, rhs)
    }
}

impl vstd::std_specs::ops::DivSpecImpl<StrengthReducedU128> for u128 {
    open spec fn obeys_div_spec() -> bool {
        true
    }

    open spec fn div_req(self, rhs: StrengthReducedU128) -> bool {
        true
    }

    open spec fn div_spec(self, rhs: StrengthReducedU128) -> u128 {
        self / rhs@
    }
}

impl core::ops::Rem<StrengthReducedU128> for u128 {
    type Output = u128;

    fn rem(self, rhs: StrengthReducedU128) -> u128 {
        StrengthReducedU128::rem(self, rhs)
    }
}

impl vstd::std_specs::ops::RemSpecImpl<StrengthReducedU128> for u128 {
    open spec fn obeys_rem_spec() -> bool {
        true
    }

    open spec fn rem_req(self, rhs: StrengthReducedU128) -> bool {
        true
    }

    open spec fn rem_spec(self, rhs: StrengthReducedU128) -> u128 {
        self % rhs@
    }
}

impl core::ops::Div<StrengthReducedUsize> for usize {
    type Output = usize;

    fn div(self, rhs: StrengthReducedUsize) -> usize {
        StrengthReducedUsize::div(self, rhs)
    }
}

impl vstd::std_specs::ops::DivSpecImpl<StrengthReducedUsize> for usize {
    open spec fn obeys_div_spec() -> bool {
        true
    }

    open spec fn div_req(self, rhs: StrengthReducedUsize) -> bool {
        true
    }

    open spec fn div_spec(self, rhs: StrengthReducedUsize) -> usize {
        self / rhs@
    }
}

impl core::ops::Rem<StrengthReducedUsize> for usize {
    type Output = usize;

    fn rem(self, rhs: StrengthReducedUsize) -> usize {
        StrengthReducedUsize::rem(self, rhs)
    }
}

impl vstd::std_specs::ops::RemSpecImpl<StrengthReducedUsize> for usize {
    open spec fn obeys_rem_spec() -> bool {
        true
    }

    open spec fn rem_req(self, rhs: StrengthReducedUsize) -> bool {
        true
    }

    open spec fn rem_spec(self, rhs: StrengthReducedUsize) -> usize {
        self % rhs@
    }
}

/// Dividing by a power of two `2^k` is shifting right by `k`: what `div` returns for a
/// divisor of `pow2(k)` is `n >> k`.
pub proof fn lemma_power_of_two_divisor_u8(n: u8, k: u8)
    requires
        k < 8,
    ensures
        n / (pow2(k as nat) as u8) == n >> k,
        pow2(k as nat) <= u8::MAX,
{
    vstd::bits::lemma_u8_shr_is_div(n, k);
    vstd::bits::lemma_u8_pow2_no_overflow(k as nat);
}

/// Dividing by a power of two `2^k` is shifting right by `k`: what `div` returns for a
/// divisor of `pow2(k)` is `n >> k`.
pub proof fn lemma_power_of_two_divisor_u16(n: u16, k: u16)
    requires
        k < 16,
    ensures
        n / (pow2(k as nat) as u16) == n >> k,
        pow2(k as nat) <= u16::MAX,
{
    vstd::bits::lemma_u16_shr_is_div(n, k);
    vstd::bits::lemma_u16_pow2_no_overflow(k as nat);
}

/// Dividing by a power of two `2^k` is shifting right by `k`: what `div` returns for a
/// divisor of `pow2(k)` is `n >> k`.
pub proof fn lemma_power_of_two_divisor_u32(n: u32, k: u32)
    requires
        k < 32,
    ensures
        n / (pow2(k as nat) as u32) == n >> k,
        pow2(k as nat) <= u32::MAX,
{
    vstd::bits::lemma_u32_shr_is_div(n, k);
    vstd::bits::lemma_u32_pow2_no_overflow(k as nat);
}

/// Dividing by a power of two `2^k` is shifting right by `k`: what `div` returns for a
/// divisor of `pow2(k)` is `n >> k`.
pub proof fn lemma_power_of_two_divisor_u64(n: u64, k: u64)
    requires
        k < 64,
    ensures
        n / (pow2(k as nat) as u64) == n >> k,
        pow2(k as nat) <= u64::MAX,
{
    vstd::bits::lemma_u64_shr_is_div(n, k);
    vstd::bits::lemma_u64_pow2_no_overflow(k as nat);
}

/// Dividing by a power of two `2^k` is shifting right by `k`: what `div` returns for a
/// divisor of `pow2(k)` is `n >> k`.
pub proof fn lemma_power_of_two_divisor_u128(n: u128, k: u128)
    requires
        k < 128,
    ensures
        n / (pow2(k as nat) as u128) == n >> k,
        pow2(k as nat) <= u128::MAX,
{
    vstd::bits::lemma_u128_shr_is_div(n, k);
    crate::bits::lemma_u128_pow2(k as nat);
}

} // verus!
