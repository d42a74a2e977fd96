//! Positional notation: the number that a sequence of digits writes in a base.
//!
//! Words, bytes, hexadecimal digits and bits are all digits of some base. The
//! definitions and lemmas here are stated once, for any base, and the rest of
//! the crate applies them with the bases 2, 16, 256 and 2^32.

use vstd::prelude::*;

verus! {

/// `base` raised to the power `exp`.
pub open spec fn power(base: nat, exp: nat) -> nat
    decreases exp,
{
    if exp == 0 {
        1
    } else {
        base * power(base, (exp - 1) as nat)
    }
}

/// The number written by `digits` in base `base`, most significant digit first.
pub open spec fn digits_value(digits: Seq<nat>, base: nat) -> nat
    decreases digits.len(),
{
    if digits.len() == 0 {
        0
    } else {
        digits_value(digits.drop_last(), base) * base + digits.last()
    }
}

/// The numbers that `bytes` holds, taken as digits.
pub open spec fn byte_digits(bytes: Seq<u8>) -> Seq<nat> {
    Seq::new(bytes.len(), |i: int| bytes[i] as nat)
}

/// Every element of `digits` is a digit of base `base`.
pub open spec fn digits_below(digits: Seq<nat>, base: nat) -> bool {
    forall|i: int| 0 <= i < digits.len() ==> #[trigger] digits[i] < base
}

/// `a` comes before `b` when the two are compared digit by digit from the most
/// significant end, both having the same length.
pub open spec fn lex_less(a: Seq<nat>, b: Seq<nat>) -> bool {
    exists|k: int|
        0 <= k < a.len() && k < b.len() && #[trigger] a[k] < b[k] && a.subrange(0, k)
            == b.subrange(0, k)
}

/// The shortest sequence of digits that writes `n` in base `base`: no leading
/// zero, and no digit at all for zero.
pub open spec fn minimal_digits(n: nat, base: nat) -> Seq<nat>
    decreases n,
    via minimal_digits_terminates
{
    if n == 0 || base < 2 {
        Seq::empty()
    } else {
        minimal_digits(n / base, base).push(n % base)
    }
}

#[via_fn]
proof fn minimal_digits_terminates(n: nat, base: nat) {
    if n != 0 && base >= 2 {
        assert(n / base < n) by (nonlinear_arith)
            requires
                n > 0,
                base >= 2,
        ;
    }
}

/// The `count` least significant digits of `n` in base `base`, most significant
/// first, with leading zeros where `n` is short.
pub open spec fn fixed_digits(n: nat, base: nat, count: nat) -> Seq<nat>
    decreases count,
{
    if count == 0 || base == 0 {
        Seq::empty()
    } else {
        fixed_digits(n / base, base, (count - 1) as nat).push(n % base)
    }
}

pub proof fn lemma_power_positive(base: nat, exp: nat)
    requires
        base > 0,
    ensures
        power(base, exp) > 0,
    decreases exp,
{
    if exp > 0 {
        lemma_power_positive(base, (exp - 1) as nat);
        assert(base * power(base, (exp - 1) as nat) > 0) by (nonlinear_arith)
            requires
                base > 0,
                power(base, (exp - 1) as nat) > 0,
        ;
    }
}

pub proof fn lemma_power_adds(base: nat, e1: nat, e2: nat)
    ensures
        power(base, e1 + e2) == power(base, e1) * power(base, e2),
    decreases e1,
{
    if e1 == 0 {
        assert(power(base, e1) == 1);
        assert(1 * power(base, e2) == power(base, e2));
    } else {
        let rest = (e1 - 1) as nat;
        lemma_power_adds(base, rest, e2);
        assert(rest + e2 == (e1 + e2 - 1) as nat);
        assert(base * (power(base, rest) * power(base, e2)) == (base * power(base, rest)) * power(
            base,
            e2,
        )) by (nonlinear_arith);
    }
}

pub proof fn lemma_power_of_power(base: nat, e1: nat, e2: nat)
    ensures
        power(power(base, e1), e2) == power(base, e1 * e2),
    decreases e2,
{
    if e2 == 0 {
        assert(e1 * e2 == 0) by (nonlinear_arith)
            requires
                e2 == 0,
        ;
    } else {
        let rest = (e2 - 1) as nat;
        lemma_power_of_power(base, e1, rest);
        lemma_power_adds(base, e1, e1 * rest);
        assert(e1 + e1 * rest == e1 * e2) by (nonlinear_arith)
            requires
                rest == e2 - 1,
        ;
    }
}

/// A single digit writes itself.
pub proof fn lemma_value_single(digit: nat, base: nat)
    ensures
        digits_value(seq![digit], base) == digit,
{
    assert(seq![digit].drop_last() =~= Seq::<nat>::empty());
    assert(digits_value(seq![digit].drop_last(), base) == 0);
    assert(0 * base == 0);
}

/// Appending one digit multiplies by the base and adds the digit.
pub proof fn lemma_value_push(digits: Seq<nat>, base: nat, last: nat)
    ensures
        digits_value(digits.push(last), base) == digits_value(digits, base) * base + last,
{
    assert(digits.push(last).drop_last() =~= digits);
}

/// The value of a concatenation: the first part is shifted by the length of
/// the second.
pub proof fn lemma_value_concat(high: Seq<nat>, low: Seq<nat>, base: nat)
    ensures
        digits_value(high + low, base) == digits_value(high, base) * power(base, low.len())
            + digits_value(low, base),
    decreases low.len(),
{
    if low.len() == 0 {
        assert(high + low =~= high);
        assert(digits_value(high, base) * 1 == digits_value(high, base));
    } else {
        let shorter = low.drop_last();
        lemma_value_concat(high, shorter, base);
        assert((high + low).drop_last() =~= high + shorter);
        let h = digits_value(high, base);
        let p = power(base, shorter.len());
        let s = digits_value(shorter, base);
        assert(power(base, low.len()) == base * p);
        assert((h * p + s) * base == h * (base * p) + s * base) by (nonlinear_arith);
    }
}

/// Digits below the base write a number below the base raised to their count.
pub proof fn lemma_value_bound(digits: Seq<nat>, base: nat)
    requires
        digits_below(digits, base),
    ensures
        digits_value(digits, base) < power(base, digits.len()),
    decreases digits.len(),
{
    if digits.len() > 0 {
        let shorter = digits.drop_last();
        lemma_value_bound(shorter, base);
        let v = digits_value(shorter, base);
        let p = power(base, shorter.len());
        assert(digits.last() < base);
        assert(power(base, digits.len()) == base * p);
        assert(v * base + digits.last() < base * p) by (nonlinear_arith)
            requires
                v < p,
                digits.last() < base,
        ;
    }
}

/// Two sequences of digits of one length that write the same number are the
/// same sequence.
pub proof fn lemma_value_injective(a: Seq<nat>, b: Seq<nat>, base: nat)
    requires
        a.len() == b.len(),
        digits_below(a, base),
        digits_below(b, base),
        digits_value(a, base) == digits_value(b, base),
    ensures
        a == b,
    decreases a.len(),
{
    if a.len() > 0 {
        let va = digits_value(a.drop_last(), base);
        let vb = digits_value(b.drop_last(), base);
        assert(a.last() < base && b.last() < base);
        assert(va == vb && a.last() == b.last()) by (nonlinear_arith)
            requires
                va * base + a.last() == vb * base + b.last(),
                a.last() < base,
                b.last() < base,
        ;
        lemma_value_injective(a.drop_last(), b.drop_last(), base);
        assert(a =~= a.drop_last().push(a.last()));
        assert(b =~= b.drop_last().push(b.last()));
    } else {
        assert(a =~= b);
    }
}

/// Replacing one digit changes the value by the difference of the digits,
/// weighted by the digit's position.
pub proof fn lemma_value_update(digits: Seq<nat>, base: nat, index: int, digit: nat)
    requires
        0 <= index < digits.len(),
    ensures
        digits_value(digits.update(index, digit), base) + digits[index] * power(
            base,
            (digits.len() - 1 - index) as nat,
        ) == digits_value(digits, base) + digit * power(base, (digits.len() - 1 - index) as nat),
    decreases digits.len(),
{
    let updated = digits.update(index, digit);
    if index == digits.len() - 1 {
        assert(updated.drop_last() =~= digits.drop_last());
        assert(power(base, 0) == 1);
        assert(digit * 1 == digit && digits[index] * 1 == digits[index]);
    } else {
        let shorter = digits.drop_last();
        lemma_value_update(shorter, base, index, digit);
        assert(updated.drop_last() =~= shorter.update(index, digit));
        let e = (shorter.len() - 1 - index) as nat;
        let p = power(base, e);
        assert(power(base, (digits.len() - 1 - index) as nat) == base * p);
        let vu = digits_value(shorter.update(index, digit), base);
        let vs = digits_value(shorter, base);
        let old_digit = digits[index];
        assert(vu * base + old_digit * (base * p) == vs * base + digit * (base * p))
            by (nonlinear_arith)
            requires
                vu + old_digit * p == vs + digit * p,
        ;
    }
}

/// For sequences of one length, the order by the first differing digit is the
/// order of the numbers written.
pub proof fn lemma_lex_less_is_numeric(a: Seq<nat>, b: Seq<nat>, base: nat)
    requires
        a.len() == b.len(),
        digits_below(a, base),
        digits_below(b, base),
    ensures
        lex_less(a, b) <==> digits_value(a, base) < digits_value(b, base),
    decreases a.len(),
{
    if a.len() == 0 {
        assert(!lex_less(a, b));
    } else {
        let n = a.len() - 1;
        let sa = a.drop_last();
        let sb = b.drop_last();
        lemma_lex_less_is_numeric(sa, sb, base);
        let va = digits_value(sa, base);
        let vb = digits_value(sb, base);
        assert(a.last() < base && b.last() < base);
        if lex_less(sa, sb) {
            let k = choose|k: int|
                0 <= k < sa.len() && k < sb.len() && #[trigger] sa[k] < sb[k] && sa.subrange(0, k)
                    == sb.subrange(0, k);
            assert(a.subrange(0, k) =~= sa.subrange(0, k));
            assert(b.subrange(0, k) =~= sb.subrange(0, k));
            assert(a[k] < b[k]);
            assert(lex_less(a, b));
            assert(va * base + a.last() < vb * base + b.last()) by (nonlinear_arith)
                requires
                    va < vb,
                    a.last() < base,
            ;
        } else if sa == sb {
            if a.last() < b.last() {
                assert(a.subrange(0, n) =~= b.subrange(0, n));
                assert(a[n] < b[n]);
                assert(lex_less(a, b));
            } else {
                assert forall|k: int|
                    0 <= k < a.len() && k < b.len() && #[trigger] a[k] < b[k] implies a.subrange(
                    0,
                    k,
                ) != b.subrange(0, k) by {
                    if k < n {
                        assert(sa[k] == sb[k]);
                    }
                }
            }
        } else {
            lemma_lex_less_is_numeric(sb, sa, base);
            if va == vb {
                lemma_value_injective(sa, sb, base);
            }
            assert(vb < va);
            assert(vb * base + b.last() < va * base + a.last()) by (nonlinear_arith)
                requires
                    vb < va,
                    b.last() < base,
            ;
            assert forall|k: int|
                0 <= k < a.len() && k < b.len() && #[trigger] a[k] < b[k] implies a.subrange(0, k)
                != b.subrange(0, k) by {
                if a.subrange(0, k) == b.subrange(0, k) {
                    if k < n {
                        assert(sa.subrange(0, k) =~= a.subrange(0, k));
                        assert(sb.subrange(0, k) =~= b.subrange(0, k));
                        assert(sa[k] < sb[k]);
                        assert(lex_less(sa, sb));
                    } else {
                        assert(sa =~= a.subrange(0, k));
                        assert(sb =~= b.subrange(0, k));
                    }
                }
            }
        }
    }
}

/// Digits that are all zero write zero.
pub proof fn lemma_value_zeros(digits: Seq<nat>, base: nat)
    requires
        forall|i: int| 0 <= i < digits.len() ==> digits[i] == 0,
    ensures
        digits_value(digits, base) == 0,
    decreases digits.len(),
{
    if digits.len() > 0 {
        lemma_value_zeros(digits.drop_last(), base);
        assert(0 * base == 0);
    }
}

/// Digits that write zero are all zero.
pub proof fn lemma_value_zero_means_zeros(digits: Seq<nat>, base: nat)
    requires
        base > 0,
        digits_value(digits, base) == 0,
    ensures
        forall|i: int| 0 <= i < digits.len() ==> digits[i] == 0,
    decreases digits.len(),
{
    if digits.len() > 0 {
        let shorter = digits.drop_last();
        let v = digits_value(shorter, base);
        assert(v == 0 && digits.last() == 0) by (nonlinear_arith)
            requires
                v * base + digits.last() == 0,
                base > 0,
        ;
        lemma_value_zero_means_zeros(shorter, base);
        assert forall|i: int| 0 <= i < digits.len() implies digits[i] == 0 by {
            if i < shorter.len() {
                assert(shorter[i] == 0);
            }
        }
    }
}

/// The fixed-width digits of a number that fits in them are digits of the
/// base, as many as asked for, and write the number.
pub proof fn lemma_fixed_digits(n: nat, base: nat, count: nat)
    requires
        base > 0,
        n < power(base, count),
    ensures
        fixed_digits(n, base, count).len() == count,
        digits_below(fixed_digits(n, base, count), base),
        digits_value(fixed_digits(n, base, count), base) == n,
    decreases count,
{
    if count > 0 {
        let rest = (count - 1) as nat;
        let p = power(base, rest);
        assert(n / base < p && n == (n / base) * base + n % base && n % base < base)
            by (nonlinear_arith)
            requires
                n < base * p,
                base > 0,
        ;
        lemma_fixed_digits(n / base, base, rest);
        let shorter = fixed_digits(n / base, base, rest);
        lemma_value_push(shorter, base, n % base);
        assert forall|i: int| 0 <= i < shorter.push(n % base).len() implies #[trigger] shorter.push(
            n % base,
        )[i] < base by {
            if i < shorter.len() {
                assert(shorter[i] < base);
            }
        }
    }
}

/// A sequence of digits without a leading zero is the shortest that writes
/// its number.
pub proof fn lemma_minimal_digits_unique(digits: Seq<nat>, base: nat)
    requires
        base >= 2,
        digits_below(digits, base),
        digits.len() > 0 ==> digits[0] != 0,
    ensures
        minimal_digits(digits_value(digits, base), base) == digits,
    decreases digits.len(),
{
    let n = digits_value(digits, base);
    if digits.len() == 0 {
    } else {
        let shorter = digits.drop_last();
        let v = digits_value(shorter, base);
        let last = digits.last();
        assert(last < base);
        if n == 0 {
            lemma_value_zero_means_zeros(digits, base);
            assert(digits[0] == 0);
        }
        assert(n / base == v && n % base == last) by (nonlinear_arith)
            requires
                n == v * base + last,
                last < base,
        ;
        assert(digits_below(shorter, base)) by {
            assert forall|i: int| 0 <= i < shorter.len() implies #[trigger] shorter[i] < base by {
                assert(digits[i] < base);
            }
        }
        if shorter.len() > 0 {
            assert(shorter[0] == digits[0]);
        }
        lemma_minimal_digits_unique(shorter, base);
        assert(shorter.push(last) =~= digits);
    }
}

/// The shortest digits of a number are digits of the base, write the number
/// and, unless the number is zero, begin with a digit that is not zero.
pub proof fn lemma_minimal_digits(n: nat, base: nat)
    requires
        base >= 2,
    ensures
        digits_below(minimal_digits(n, base), base),
        digits_value(minimal_digits(n, base), base) == n,
        n > 0 ==> minimal_digits(n, base).len() > 0 && minimal_digits(n, base)[0] != 0,
        n == 0 ==> minimal_digits(n, base).len() == 0,
    decreases n,
{
    if n > 0 {
        assert(n / base < n && n == (n / base) * base + n % base && n % base < base)
            by (nonlinear_arith)
            requires
                n > 0,
                base >= 2,
        ;
        lemma_minimal_digits(n / base, base);
        let shorter = minimal_digits(n / base, base);
        let digits = shorter.push(n % base);
        lemma_value_push(shorter, base, n % base);
        assert forall|i: int| 0 <= i < digits.len() implies #[trigger] digits[i] < base by {
            if i < shorter.len() {
                assert(shorter[i] < base);
            }
        }
        if n / base > 0 {
            assert(digits[0] == shorter[0]);
        } else {
            assert(digits[0] == n % base);
        }
    }
}

} // verus!
