//! Integer facts behind the multiply-and-shift division.
use vstd::arithmetic::div_mod::{
    lemma_fundamental_div_mod, lemma_fundamental_div_mod_converse, lemma_div_denominator,
    lemma_div_is_ordered_by_denominator,
};
use vstd::prelude::*;

verus! {

/// The multiplier that stands in for `1 / d` at precision `p * p`.
pub open spec fn reciprocal(d: int, p: int) -> int {
    (p * p - 1) / d + 1
}

/// For `0 < d < p` and every `n < p`, the product `n * reciprocal(d, p)` holds the
/// quotient `n / d` above `p * p`, and its part below `p * p`, scaled by `d`, holds the
/// remainder `n % d` above `p * p`.
pub proof fn lemma_reciprocal(n: int, d: int, p: int)
    requires
        0 < d < p,
        0 <= n < p,
    ensures
        n * reciprocal(d, p) / (p * p) == n / d,
        (n * reciprocal(d, p)) % (p * p) == n * reciprocal(d, p) - (n / d) * (p * p),
        ((n * reciprocal(d, p)) % (p * p)) * d / (p * p) == n % d,
{
    let pp = p * p;
    let t = (pp - 1) / d;
    let u = (pp - 1) % d;
    let m = t + 1;
    lemma_fundamental_div_mod(pp - 1, d);
    let e = d - 1 - u;
    assert(m * d == pp + e) by (nonlinear_arith)
        requires
            m == t + 1,
            pp - 1 == d * t + u,
            e == d - 1 - u,
    ;
    let q = n / d;
    let r = n % d;
    lemma_fundamental_div_mod(n, d);
    let f = n * m - q * pp;
    assert(f * d == r * pp + n * e) by (nonlinear_arith)
        requires
            f == n * m - q * pp,
            m * d == pp + e,
            n == d * q + r,
    ;
    assert(0 <= n * e < pp) by (nonlinear_arith)
        requires
            0 <= n < p,
            0 <= e < d < p,
            pp == p * p,
    ;
    assert(0 <= f < pp) by (nonlinear_arith)
        requires
            f * d == r * pp + n * e,
            0 <= n * e < pp,
            0 <= r < d,
            pp > 0,
    {
        assert(r * pp + pp <= d * pp);
    }
    assert(n * m == q * pp + f);
    lemma_fundamental_div_mod_converse(n * m, pp, q, f);
    lemma_fundamental_div_mod_converse(f * d, pp, r, n * e);
}

/// Multiplying by `m` in two halves of base `b` and dropping `b` twice is the same
/// as dropping `b * b` from the whole product.
pub proof fn lemma_split_product(n: int, m: int, b: int)
    requires
        n >= 0,
        m >= 0,
        b > 0,
    ensures
        (n * (m / b) + (n * (m % b)) / b) / b == n * m / (b * b),
{
    lemma_fundamental_div_mod(m, b);
    let x = n * (m / b);
    let y = n * (m % b);
    assert(n * m == x * b + y) by (nonlinear_arith)
        requires
            m == b * (m / b) + m % b,
            x == n * (m / b),
            y == n * (m % b),
    ;
    assert(y >= 0) by (nonlinear_arith)
        requires
            n >= 0,
            m % b >= 0,
            y == n * (m % b),
    ;
    lemma_fundamental_div_mod(y, b);
    assert(n * m == (x + y / b) * b + y % b) by (nonlinear_arith)
        requires
            n * m == x * b + y,
            y == b * (y / b) + y % b,
    ;
    lemma_fundamental_div_mod_converse(n * m, b, x + y / b, y % b);
    lemma_div_denominator(n * m, b, b);
}

/// A guess whose multiple of `d` exceeds `x` lies above the quotient `x / d`.
pub proof fn lemma_above_quotient(x: int, d: int, q: int)
    requires
        d > 0,
        x >= 0,
        q * d > x,
    ensures
        q > x / d,
{
    lemma_fundamental_div_mod(x, d);
    let k = x / d;
    let r = x % d;
    assert(q > k) by (nonlinear_arith)
        requires
            d > 0,
            x == d * k + r,
            0 <= r < d,
            q * d > x,
    ;
}

/// A guess whose multiple of `d` does not exceed `x` lies at or below `x / d`.
pub proof fn lemma_within_quotient(x: int, d: int, q: int)
    requires
        d > 0,
        x >= 0,
        q * d <= x,
    ensures
        q <= x / d,
{
    lemma_fundamental_div_mod(x, d);
    let k = x / d;
    let r = x % d;
    assert(q <= k) by (nonlinear_arith)
        requires
            d > 0,
            x == d * k + r,
            0 <= r < d,
            q * d <= x,
    ;
}

/// One step of schoolbook division: the quotient of `hi * b + lo` by `d` is the
/// quotient of `hi` followed by one digit of base `b`, the quotient of the carried
/// remainder with `lo`.
pub proof fn lemma_division_step(hi: int, lo: int, b: int, d: int)
    requires
        d > 0,
        hi >= 0,
        0 <= lo < b,
    ensures
        (hi * b + lo) / d == (hi / d) * b + ((hi % d) * b + lo) / d,
        0 <= ((hi % d) * b + lo) / d < b,
{
    lemma_fundamental_div_mod(hi, d);
    let r = hi % d;
    let w = r * b + lo;
    assert(0 <= w < d * b) by (nonlinear_arith)
        requires
            0 <= r < d,
            0 <= lo < b,
            w == r * b + lo,
    ;
    lemma_fundamental_div_mod(w, d);
    let q = w / d;
    if q >= b {
        assert(q * d >= b * d) by (nonlinear_arith)
            requires
                q >= b,
                d > 0,
        ;
    }
    if q < 0 {
        assert(q * d < 0) by (nonlinear_arith)
            requires
                q < 0,
                d > 0,
        ;
    }
    assert(hi * b + lo == ((hi / d) * b + q) * d + w % d) by (nonlinear_arith)
        requires
            hi == d * (hi / d) + r,
            w == r * b + lo,
            w == d * q + w % d,
    ;
    lemma_fundamental_div_mod_converse(hi * b + lo, d, (hi / d) * b + q, w % d);
}

/// A first guess at a quotient digit from the divisor's leading part: the digit of
/// `hi * b + lo` by `d` fits below `b` and does not exceed `hi / (d / b)`.
pub proof fn lemma_digit_guess(hi: int, lo: int, b: int, d: int)
    requires
        0 <= hi < d,
        0 <= lo < b,
        d >= b,
    ensures
        0 <= (hi * b + lo) / d < b,
        (hi * b + lo) / d <= hi / (d / b),
{
    lemma_division_step(hi, lo, b, d);
    vstd::arithmetic::div_mod::lemma_basic_div(hi, d);
    vstd::arithmetic::div_mod::lemma_small_mod(hi as nat, d as nat);
    let x = hi * b + lo;
    let dh = d / b;
    lemma_fundamental_div_mod(d, b);
    vstd::arithmetic::div_mod::lemma_div_is_ordered(b, d, b);
    vstd::arithmetic::div_mod::lemma_div_by_self(b);
    assert(dh >= 1);
    assert(dh * b <= d);
    assert(x >= 0) by (nonlinear_arith)
        requires
            hi >= 0,
            lo >= 0,
            b > 0,
            x == hi * b + lo,
    ;
    assert(1 <= dh * b) by (nonlinear_arith)
        requires
            dh >= 1,
            b >= 1,
    ;
    lemma_div_is_ordered_by_denominator(x, dh * b, d);
    lemma_div_denominator(x, b, dh);
    assert(b * dh == dh * b) by (nonlinear_arith);
    lemma_fundamental_div_mod_converse(x, b, hi, lo);
}

/// Scaling both sides of a division by the same factor keeps the quotient.
pub proof fn lemma_scaled_quotient(x: int, d: int, p: int)
    requires
        x >= 0,
        d > 0,
        p > 0,
    ensures
        (x * p) / (d * p) == x / d,
{
    lemma_fundamental_div_mod(x, d);
    let r = x % d;
    assert(x * p == (x / d) * (d * p) + r * p && 0 <= r * p < d * p) by (nonlinear_arith)
        requires
            x == d * (x / d) + r,
            0 <= r < d,
            p > 0,
    ;
    lemma_fundamental_div_mod_converse(x * p, d * p, x / d, r * p);
}

/// The multiple of `d` that a quotient takes off `x` leaves the remainder.
pub proof fn lemma_quotient_product(x: int, d: int)
    requires
        x >= 0,
        d > 0,
    ensures
        0 <= (x / d) * d <= x,
        x - (x / d) * d == x % d,
        0 <= x % d < d,
        x / d >= 0,
{
    lemma_fundamental_div_mod(x, d);
    let k = x / d;
    assert(k * d == d * k) by (nonlinear_arith);
    vstd::arithmetic::div_mod::lemma_div_pos_is_pos(x, d);
    assert(k * d >= 0) by (nonlinear_arith)
        requires
            k >= 0,
            d > 0,
    ;
}


/// Dividing a 128-bit `n` by the divisor with its lower bits cleared, `dh * t` where
/// `dh = d / t` has its top bit at 2^63, overestimates `n / d` by at most one.
pub proof fn lemma_truncated_divisor_estimate(n: int, d: int, t: int, dh: int)
    requires
        0 <= n < 0x1_0000_0000_0000_0000_0000_0000_0000_0000,
        t >= 1,
        dh >= 0x8000_0000_0000_0000,
        dh == d / t,
        d > 0,
    ensures
        n / (dh * t) - 1 <= n / d <= n / (dh * t),
{
    lemma_fundamental_div_mod(d, t);
    let dl = d % t;
    let a = dh * t;
    assert(d == a + dl) by (nonlinear_arith)
        requires
            d == t * dh + dl,
            a == dh * t,
    ;
    assert(a >= 1) by (nonlinear_arith)
        requires
            a == dh * t,
            dh >= 1,
            t >= 1,
    ;
    lemma_div_is_ordered_by_denominator(n, a, d);
    let q0 = n / a;
    lemma_quotient_product(n, a);
    assert(n * dl < a * d) by (nonlinear_arith)
        requires
            0 <= n < 0x1_0000_0000_0000_0000_0000_0000_0000_0000,
            0 <= dl < t,
            a == dh * t,
            dh >= 0x8000_0000_0000_0000,
            d >= a,
            t >= 1,
    {
        if dl > 0 {
            assert(n * dl <= n * (t - 1));
            assert(n * (t - 1) < 0x1_0000_0000_0000_0000_0000_0000_0000_0000 * (t - 1));
            assert(4 * (t - 1) <= t * t) by {
                assert((t - 2) * (t - 2) >= 0);
            }
            assert(a >= 0x8000_0000_0000_0000 * t);
            assert(a * d >= a * a);
            assert(a * a >= (0x8000_0000_0000_0000 * t) * (0x8000_0000_0000_0000 * t));
        } else {
            assert(a * d >= 1);
        }
    }
    assert(q0 * dl < d) by (nonlinear_arith)
        requires
            q0 * a <= n,
            n * dl < a * d,
            dl >= 0,
            q0 >= 0,
            a >= 1,
    {
        assert(q0 * dl * a <= n * dl);
    }
    assert((q0 - 1) * d <= n) by (nonlinear_arith)
        requires
            q0 * a <= n,
            q0 * dl < d,
            d == a + dl,
    ;
    lemma_within_quotient(n, d, q0 - 1);
}


/// A multiplier `m` with `m * d = p + e` takes the quotient by `d` of every `n` with
/// `n * e < p`, as the part of `n * m` above `p`.
pub proof fn lemma_small_error_quotient(n: int, d: int, m: int, p: int, e: int)
    requires
        d > 0,
        p > 0,
        n >= 0,
        e >= 0,
        m * d == p + e,
        n * e < p,
    ensures
        n * m / p == n / d,
{
    let q = n / d;
    let r = n % d;
    lemma_fundamental_div_mod(n, d);
    let f = n * m - q * p;
    assert(f * d == r * p + n * e) by (nonlinear_arith)
        requires
            f == n * m - q * p,
            m * d == p + e,
            n == d * q + r,
    ;
    assert(n * e >= 0) by (nonlinear_arith)
        requires
            n >= 0,
            e >= 0,
    ;
    assert(0 <= f < p) by (nonlinear_arith)
        requires
            f * d == r * p + n * e,
            0 <= n * e < p,
            0 <= r < d,
            p > 0,
    {
        assert(r * p + p <= d * p);
    }
    assert(n * m == q * p + f);
    lemma_fundamental_div_mod_converse(n * m, p, q, f);
}

} // verus!
