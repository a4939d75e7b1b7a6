//! Schoolbook multiplication of numbers held as little-endian 64-bit digits.
use vstd::prelude::*;
use crate::bits::{lemma_u128_split, lemma_u128_join64};

verus! {

/// The base of one digit.
pub open spec fn base() -> int {
    0x1_0000_0000_0000_0000
}

/// `base()` raised to `i`: the weight of digit `i`.
pub open spec fn word_pow(i: nat) -> int
    decreases i,
{
    if i == 0 {
        1
    } else {
        base() * word_pow((i - 1) as nat)
    }
}

/// The number that little-endian 64-bit digits stand for.
pub open spec fn digits_value(s: Seq<u64>) -> int
    decreases s.len(),
{
    if s.len() == 0 {
        0
    } else {
        digits_value(s.drop_last()) + s.last() * word_pow((s.len() - 1) as nat)
    }
}

/// Every weight is positive, and a later one is a multiple of an earlier one.
pub proof fn lemma_word_pow(i: nat, j: nat)
    requires
        i <= j,
    ensures
        word_pow(i) > 0,
        word_pow(j) >= word_pow(i),
        i < j ==> word_pow(j) >= base() * word_pow(i),
    decreases j,
{
    if j > 0 && i < j {
        lemma_word_pow(i, (j - 1) as nat);
        assert(base() * word_pow((j - 1) as nat) >= base() * word_pow(i)) by (nonlinear_arith)
            requires
                word_pow((j - 1) as nat) >= word_pow(i),
        ;
    } else if j > 0 {
        lemma_word_pow((j - 1) as nat, (j - 1) as nat);
    }
}

/// Weights multiply as their exponents add.
pub proof fn lemma_word_pow_add(i: nat, j: nat)
    ensures
        word_pow(i + j) == word_pow(i) * word_pow(j),
    decreases j,
{
    if j > 0 {
        lemma_word_pow_add(i, (j - 1) as nat);
        assert(word_pow(i + j) == base() * word_pow((i + j - 1) as nat));
        assert(base() * (word_pow(i) * word_pow((j - 1) as nat)) == word_pow(i) * (base()
            * word_pow((j - 1) as nat))) by (nonlinear_arith);
    }
}

/// Digits are below the weight of the next position.
pub proof fn lemma_digits_bound(s: Seq<u64>)
    ensures
        0 <= digits_value(s) < word_pow(s.len()),
    decreases s.len(),
{
    if s.len() > 0 {
        let n = (s.len() - 1) as nat;
        lemma_digits_bound(s.drop_last());
        lemma_word_pow(n, n);
        assert(digits_value(s.drop_last()) + s.last() * word_pow(n) < word_pow(n) * base()) by (nonlinear_arith)
            requires
                0 <= digits_value(s.drop_last()) < word_pow(n),
                0 <= s.last() < base(),
                word_pow(n) > 0,
        ;
        assert(s.last() * word_pow(n) >= 0) by (nonlinear_arith)
            requires
                s.last() >= 0,
                word_pow(n) > 0,
        ;
    }
}

/// Replacing digit `i` changes the value by the difference at its weight.
pub proof fn lemma_digits_update(s: Seq<u64>, i: int, v: u64)
    requires
        0 <= i < s.len(),
    ensures
        digits_value(s.update(i, v)) == digits_value(s) + (v - s[i]) * word_pow(i as nat),
    decreases s.len(),
{
    let t = s.update(i, v);
    if i == s.len() - 1 {
        assert(t.drop_last() =~= s.drop_last());
        assert(v * word_pow(i as nat) - s[i] * word_pow(i as nat) == (v - s[i]) * word_pow(i as nat)) by (nonlinear_arith);
    } else {
        assert(t.drop_last() =~= s.drop_last().update(i, v));
        lemma_digits_update(s.drop_last(), i, v);
    }
}

/// The digits below `i + 1` add digit `i` at its weight to those below `i`.
pub proof fn lemma_digits_take(s: Seq<u64>, i: int)
    requires
        0 <= i < s.len(),
    ensures
        digits_value(s.take(i + 1)) == digits_value(s.take(i)) + s[i] * word_pow(i as nat),
{
    assert(s.take(i + 1).drop_last() =~= s.take(i));
}

/// One step of a carried multiply-accumulate: a digit plus the incoming carry plus what
/// is added splits into the new digit and the outgoing carry, one weight higher.
proof fn lemma_carry_step(total: int, carry: int, digit: int, added: int, w: int)
    requires
        total == carry + digit + added,
        total >= 0,
    ensures
        (total % base() - digit) * w + (total / base()) * (base() * w) == carry * w + added * w,
{
    vstd::arithmetic::div_mod::lemma_fundamental_div_mod(total, base());
    let lo = total % base();
    let hi = total / base();
    assert((lo - digit) * w + hi * (base() * w) == carry * w + added * w) by (nonlinear_arith)
        requires
            total == base() * hi + lo,
            total == carry + digit + added,
    ;
}

/// Adds `a * b * base()^offset` to `product`, digit by digit with a running carry.
fn multiply_add_at(product: &mut [u64], offset: usize, a: &[u64], b: u64)
    requires
        offset + a.len() <= old(product).len(),
        digits_value(old(product)@) + digits_value(a@) * b * word_pow(offset as nat) < word_pow(
            old(product)@.len(),
        ),
    ensures
        final(product)@.len() == old(product)@.len(),
        digits_value(final(product)@) == digits_value(old(product)@) + digits_value(a@) * b
            * word_pow(offset as nat),
{
    let ghost start = product@;
    let ghost w0 = word_pow(offset as nat);
    proof {
        lemma_word_pow(offset as nat, offset as nat);
    }
    let mut carry: u128 = 0;
    let mut i: usize = 0;
    assert(a@.take(0) =~= Seq::<u64>::empty());
    assert(digits_value(a@.take(0)) * b * w0 == 0) by (nonlinear_arith)
        requires
            digits_value(a@.take(0)) == 0,
    ;
    // Multiply each of the digits in a by b, adding them into the product. The product
    // may already hold a partial sum, which is carried along.
    while i < a.len()
        invariant
            i <= a.len(),
            offset + a.len() <= product@.len(),
            product@.len() == start.len(),
            carry < base(),
            w0 == word_pow(offset as nat),
            w0 > 0,
            digits_value(product@) + carry * word_pow((offset + i) as nat) == digits_value(start)
                + digits_value(a@.take(i as int)) * b * w0,
        decreases a.len() - i,
    {
        let k = offset + i;
        let digit = product[k];
        let ghost before = product@;
        let ghost old_carry = carry;
        let ghost w = word_pow(k as nat);
        assert(a[i as int] * b <= 0xffff_ffff_ffff_fffe_0000_0000_0000_0001) by (nonlinear_arith)
            requires
                a[i as int] <= 0xffff_ffff_ffff_ffff,
                b <= 0xffff_ffff_ffff_ffff,
        ;
        carry = carry + digit as u128;
        carry = carry + a[i] as u128 * b as u128;
        let ghost total = carry as int;
        proof {
            lemma_u128_split(carry);
            lemma_carry_step(total, old_carry as int, digit as int, a[i as int] * b, w);
            lemma_digits_update(before, k as int, (#[verifier::truncate] (carry as u64)));
            lemma_digits_take(a@, i as int);
            lemma_word_pow_add(offset as nat, i as nat);
            assert(word_pow((k + 1) as nat) == base() * w);
            assert(digits_value(a@.take(i + 1)) * b * w0 == digits_value(a@.take(i as int)) * b
                * w0 + (a[i as int] * b) * w) by (nonlinear_arith)
                requires
                    digits_value(a@.take(i + 1)) == digits_value(a@.take(i as int)) + a[i as int]
                        * word_pow(i as nat),
                    w == word_pow(offset as nat) * word_pow(i as nat),
                    w0 == word_pow(offset as nat),
            {
            }
        }
        product[k] = #[verifier::truncate] (carry as u64);
        carry = carry >> 64;
        i = i + 1;
    }
    // Carry through the rest of the product.
    assert(a@.take(a.len() as int) =~= a@);
    let mut k: usize = offset + a.len();
    while carry != 0
        invariant
            offset + a.len() <= k <= product@.len(),
            product@.len() == start.len(),
            carry < base(),
            digits_value(product@) + carry * word_pow(k as nat) == digits_value(start)
                + digits_value(a@) * b * w0,
            digits_value(start) + digits_value(a@) * b * w0 < word_pow(start.len()),
        decreases product@.len() - k,
    {
        proof {
            lemma_digits_bound(product@);
            if k >= product@.len() {
                lemma_word_pow(product@.len() as nat, k as nat);
                assert(carry * word_pow(k as nat) >= word_pow(k as nat)) by (nonlinear_arith)
                    requires
                        carry >= 1,
                        word_pow(k as nat) > 0,
                ;
            }
        }
        let digit = product[k];
        let ghost before = product@;
        let ghost old_carry = carry;
        let ghost w = word_pow(k as nat);
        carry = carry + digit as u128;
        proof {
            lemma_u128_split(carry);
            lemma_carry_step(carry as int, old_carry as int, digit as int, 0, w);
            lemma_digits_update(before, k as int, (#[verifier::truncate] (carry as u64)));
            assert(word_pow((k + 1) as nat) == base() * w);
        }
        product[k] = #[verifier::truncate] (carry as u64);
        carry = carry >> 64;
        k = k + 1;
    }
}


/// The value of a few digits, written out.
pub proof fn lemma_digits_short(s: Seq<u64>)
    ensures
        s.len() == 1 ==> digits_value(s) == s[0],
        s.len() == 2 ==> digits_value(s) == s[0] + s[1] * base(),
        s.len() == 3 ==> digits_value(s) == s[0] + s[1] * base() + s[2] * (base() * base()),
        s.len() == 4 ==> digits_value(s) == s[0] + s[1] * base() + s[2] * (base() * base())
            + s[3] * (base() * base() * base()),
    decreases s.len(),
{
    reveal_with_fuel(word_pow, 4);
    reveal_with_fuel(digits_value, 2);
    if s.len() >= 1 {
        let t = s.drop_last();
        lemma_digits_short(t);
        assert(forall|k: int| 0 <= k < t.len() ==> t[k] == s[k]);
        if s.len() == 1 {
            assert(t.len() == 0);
        }
    }
}

/// Digits that are all zero stand for zero.
pub proof fn lemma_digits_zero(s: Seq<u64>)
    requires
        forall|k: int| 0 <= k < s.len() ==> s[k] == 0,
    ensures
        digits_value(s) == 0,
    decreases s.len(),
{
    if s.len() > 0 {
        lemma_digits_zero(s.drop_last());
    }
}

/// The digits of a number split at position `i`: those below and those from `i` on.
pub proof fn lemma_digits_split(s: Seq<u64>, i: int)
    requires
        0 <= i <= s.len(),
    ensures
        digits_value(s) == digits_value(s.take(i)) + word_pow(i as nat) * digits_value(s.skip(i)),
    decreases s.len(),
{
    if i == s.len() {
        assert(s.take(i) =~= s);
        assert(s.skip(i).len() == 0);
        assert(word_pow(i as nat) * 0 == 0) by (nonlinear_arith);
    } else {
        let dl = s.drop_last();
        lemma_digits_split(dl, i);
        assert(dl.take(i) =~= s.take(i));
        assert(s.skip(i).drop_last() =~= dl.skip(i));
        let n = (s.len() - 1) as nat;
        lemma_word_pow_add(i as nat, (n - i) as nat);
        assert(s.skip(i).last() == s.last());
        assert(s.skip(i).len() - 1 == n - i);
        let low = digits_value(s.take(i));
        let mid = digits_value(dl.skip(i));
        let top = s.last() as int;
        let wi = word_pow(i as nat);
        let wr = word_pow((n - i) as nat);
        assert(digits_value(s) == low + wi * mid + top * (wi * wr));
        assert(digits_value(s.skip(i)) == mid + top * wr);
        assert(low + wi * mid + top * (wi * wr) == low + wi * (mid + top * wr)) by (nonlinear_arith);
    }
}

/// Adds `a * b` to the number held in `product`.
pub(crate) fn long_multiply(a: &[u64], b: u64, product: &mut [u64])
    requires
        a.len() <= old(product).len(),
        digits_value(old(product)@) + digits_value(a@) * b < word_pow(old(product)@.len()),
    ensures
        final(product)@.len() == old(product)@.len(),
        digits_value(final(product)@) == digits_value(old(product)@) + digits_value(a@) * b,
{
    assert(word_pow(0) == 1);
    assert(digits_value(a@) * b * 1 == digits_value(a@) * b);
    if b == 0 {
        assert(digits_value(a@) * 0 == 0);
        return;
    }
    multiply_add_at(product, 0, a, b);
}

/// Adds `a * b` at digit `offset` of the number held in `product`.
fn multiply_256_by_64_helper(product: &mut [u64; 6], offset: usize, a: &[u64; 4], b: u64)
    requires
        offset <= 2,
        digits_value(old(product)@) + digits_value(a@) * b * word_pow(offset as nat) < word_pow(6),
    ensures
        digits_value(final(product)@) == digits_value(old(product)@) + digits_value(a@) * b
            * word_pow(offset as nat),
{
    if b == 0 {
        assert(digits_value(a@) * 0 * word_pow(offset as nat) == 0) by (nonlinear_arith);
        return;
    }
    multiply_add_at(product, offset, a, b);
}

/// The upper 128 bits of the product of the 256-bit number `a_hi : a_lo` and the
/// 128-bit number `b`.
pub fn multiply_256_by_128_upperbits(a_hi: u128, a_lo: u128, b: u128) -> (r: u128)
    ensures
        r == (a_hi * 0x1_0000_0000_0000_0000_0000_0000_0000_0000 + a_lo) * b / (word_pow(4)),
{
    proof {
        lemma_u128_split(a_lo);
        lemma_u128_split(a_hi);
        lemma_u128_split(b);
    }
    // Break a and b into little-endian 64-bit chunks
    let a_chunks: [u64; 4] = [
        #[verifier::truncate] (a_lo as u64),
        (a_lo >> 64) as u64,
        #[verifier::truncate] (a_hi as u64),
        (a_hi >> 64) as u64,
    ];
    let b_chunks: [u64; 2] = [#[verifier::truncate] (b as u64), (b >> 64) as u64];
    let ghost av = a_hi * 0x1_0000_0000_0000_0000_0000_0000_0000_0000 + a_lo;
    proof {
        reveal_with_fuel(word_pow, 7);
        lemma_digits_short(a_chunks@);
        assert(a_chunks@.len() == 4);
        assert(a_chunks@[0] == a_lo as int % base());
        assert(a_chunks@[1] == a_lo as int / base());
        assert(a_chunks@[2] == a_hi as int % base());
        assert(a_chunks@[3] == a_hi as int / base());
        let c = a_chunks@;
        assert(c[0] + c[1] * base() + c[2] * (base() * base()) + c[3] * (base() * base() * base())
            == av) by (nonlinear_arith)
            requires
                base() == 0x1_0000_0000_0000_0000,
                c[0] == a_lo as int % base(),
                c[1] == a_lo as int / base(),
                c[2] == a_hi as int % base(),
                c[3] == a_hi as int / base(),
                av == a_hi * 0x1_0000_0000_0000_0000_0000_0000_0000_0000 + a_lo,
        {
            vstd::arithmetic::div_mod::lemma_fundamental_div_mod(a_lo as int, base());
            vstd::arithmetic::div_mod::lemma_fundamental_div_mod(a_hi as int, base());
        }
        assert(digits_value(a_chunks@) == av);
        assert(0 <= av < word_pow(4));
        assert(b_chunks[0] + b_chunks[1] * base() == b);
    }

    // Multiply b by a, one chunk of b at a time
    let mut product: [u64; 6] = [0; 6];
    proof {
        lemma_digits_zero(product@);
        assert(av * b_chunks[0] * 1 < word_pow(6)) by (nonlinear_arith)
            requires
                0 <= av < word_pow(4),
                b_chunks[0] < base(),
                word_pow(6) == word_pow(4) * base() * base(),
        ;
    }
    multiply_256_by_64_helper(&mut product, 0, &a_chunks, b_chunks[0]);
    proof {
        assert(av * b_chunks[0] + av * b_chunks[1] * base() < word_pow(6)) by (nonlinear_arith)
            requires
                0 <= av < word_pow(4),
                b_chunks[0] + b_chunks[1] * base() == b,
                0 <= b < base() * base(),
                word_pow(6) == word_pow(4) * base() * base(),
        ;
    }
    multiply_256_by_64_helper(&mut product, 1, &a_chunks, b_chunks[1]);
    proof {
        assert(digits_value(product@) == av * b) by (nonlinear_arith)
            requires
                digits_value(product@) == av * b_chunks[0] * 1 + av * b_chunks[1] * base(),
                b_chunks[0] + b_chunks[1] * base() == b,
        ;
        lemma_digits_split(product@, 4);
        lemma_digits_short(product@.skip(4));
        lemma_digits_bound(product@.take(4));
        assert(product@.skip(4)[0] == product[4] && product@.skip(4)[1] == product[5]);
        assert(product@.take(4).len() == 4);
        assert(word_pow(4) * (product[4] + product[5] * base()) == (product[4] + product[5] * base()) * word_pow(4)) by (nonlinear_arith);
        vstd::arithmetic::div_mod::lemma_fundamental_div_mod_converse(
            av * b,
            word_pow(4),
            product[4] + product[5] * base(),
            digits_value(product@.take(4)),
        );
        lemma_u128_join64(product[5] as u128, product[4] as u128);
    }

    // the last 2 elements of the array hold the part of the product that we care about
    ((product[5] as u128) << 64) | (product[4] as u128)
}


/// The digits from position `i` on are digit `i` followed by those from `i + 1` on.
pub proof fn lemma_digits_skip(s: Seq<u64>, i: int)
    requires
        0 <= i < s.len(),
    ensures
        digits_value(s.skip(i)) == s[i] + base() * digits_value(s.skip(i + 1)),
{
    let t = s.skip(i);
    lemma_digits_split(t, 1);
    lemma_digits_short(t.take(1));
    assert(t.skip(1) =~= s.skip(i + 1));
    reveal_with_fuel(word_pow, 2);
}


/// A digit at position `j` contributes at least its weight.
pub proof fn lemma_digit_weight(s: Seq<u64>, j: int)
    requires
        0 <= j < s.len(),
    ensures
        digits_value(s) >= s[j] * word_pow(j as nat),
{
    lemma_digits_split(s, j);
    lemma_digits_skip(s, j);
    lemma_digits_bound(s.take(j));
    lemma_digits_bound(s.skip(j + 1));
    lemma_word_pow(j as nat, j as nat);
    assert(word_pow(j as nat) * digits_value(s.skip(j)) >= s[j] * word_pow(j as nat)) by (nonlinear_arith)
        requires
            digits_value(s.skip(j)) == s[j] + base() * digits_value(s.skip(j + 1)),
            digits_value(s.skip(j + 1)) >= 0,
            word_pow(j as nat) > 0,
    ;
}

/// Digits whose top one is not zero stand for at least the weight of that top digit;
/// digits that are zero from `m` on stand for what those below `m` stand for.
pub proof fn lemma_digits_top(s: Seq<u64>, m: int)
    requires
        0 <= m <= s.len(),
        forall|k: int| m <= k < s.len() ==> s[k] == 0,
    ensures
        digits_value(s) == digits_value(s.take(m)),
        digits_value(s) < word_pow(m as nat),
        m > 0 && s[m - 1] != 0 ==> digits_value(s) >= word_pow((m - 1) as nat),
{
    lemma_digits_split(s, m);
    lemma_digits_zero(s.skip(m));
    lemma_digits_bound(s.take(m));
    assert(s.take(m).len() == m);
    if m > 0 && s[m - 1] != 0 {
        lemma_digit_weight(s, m - 1);
        lemma_word_pow((m - 1) as nat, (m - 1) as nat);
        assert(s[m - 1] * word_pow((m - 1) as nat) >= word_pow((m - 1) as nat)) by (nonlinear_arith)
            requires
                s[m - 1] >= 1,
                word_pow((m - 1) as nat) > 0,
        ;
    }
}

} // verus!
