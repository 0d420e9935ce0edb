//! Decimal digit sequences (ASCII bytes): their value, and the canonical digits of a
//! natural number.

use vstd::prelude::*;
use crate::math::{lemma_pow10_pos, pow10};

verus! {

/// An ASCII decimal digit.
pub open spec fn is_digit(c: u8) -> bool {
    48 <= c <= 57
}

/// The value of an ASCII decimal digit.
pub open spec fn digit_value(c: u8) -> nat {
    (c - 48) as nat
}

/// The ASCII digit for `d < 10`.
pub open spec fn digit_byte(d: nat) -> u8
    recommends
        d < 10,
{
    (d + 48) as u8
}

/// Every byte of `s` is a decimal digit.
pub open spec fn all_digits(s: Seq<u8>) -> bool {
    forall|i: int| 0 <= i < s.len() ==> is_digit(#[trigger] s[i])
}

/// The number that a digit sequence spells, most significant digit first
/// (the empty sequence spells 0).
pub open spec fn digits_value(s: Seq<u8>) -> nat
    decreases s.len(),
{
    if s.len() == 0 {
        0
    } else {
        digits_value(s.drop_last()) * 10 + digit_value(s.last())
    }
}

/// The decimal digits of `n` without leading zeros ("0" for zero).
pub open spec fn nat_digits(n: nat) -> Seq<u8>
    decreases n,
{
    if n < 10 {
        seq![digit_byte(n)]
    } else {
        nat_digits(n / 10).push(digit_byte(n % 10))
    }
}

/// The lowest `width` decimal digits of `n`, zero-padded on the left.
pub open spec fn padded_digits(n: nat, width: nat) -> Seq<u8>
    decreases width,
{
    if width == 0 {
        seq![]
    } else {
        padded_digits(n / 10, (width - 1) as nat).push(digit_byte(n % 10))
    }
}

pub proof fn lemma_digit_byte(d: nat)
    requires
        d < 10,
    ensures
        is_digit(digit_byte(d)),
        digit_value(digit_byte(d)) == d,
{
}

pub proof fn lemma_digits_value_single(c: u8)
    ensures
        digits_value(seq![c]) == digit_value(c),
{
    assert(seq![c].drop_last() =~= Seq::<u8>::empty());
    assert(digits_value(Seq::<u8>::empty()) == 0);
}

pub proof fn lemma_digits_value_push(s: Seq<u8>, c: u8)
    ensures
        digits_value(s.push(c)) == digits_value(s) * 10 + digit_value(c),
{
    assert(s.push(c).drop_last() =~= s);
}

/// The value of a concatenation: the digits of `a` are shifted left by `|b|`.
pub proof fn lemma_digits_value_concat(a: Seq<u8>, b: Seq<u8>)
    ensures
        digits_value(a + b) == digits_value(a) * pow10(b.len()) + digits_value(b),
    decreases b.len(),
{
    if b.len() == 0 {
        assert(a + b =~= a);
        assert(digits_value(a) * pow10(0) == digits_value(a) * 1);
    } else {
        let b1 = b.drop_last();
        lemma_digits_value_concat(a, b1);
        assert((a + b).drop_last() =~= a + b1);
        assert((a + b).last() == b.last());
        let va = digits_value(a) as int;
        let v1 = digits_value(b1) as int;
        let p = pow10(b1.len()) as int;
        assert(pow10(b.len()) == 10 * p);
        assert((va * p + v1) * 10 == va * (10 * p) + v1 * 10) by (nonlinear_arith);
    }
}

/// A digit sequence spells less than `10^len`.
pub proof fn lemma_digits_value_bound(s: Seq<u8>)
    requires
        all_digits(s),
    ensures
        digits_value(s) < pow10(s.len()),
    decreases s.len(),
{
    if s.len() > 0 {
        let dl = s.drop_last();
        assert forall|i: int| 0 <= i < dl.len() implies is_digit(#[trigger] dl[i]) by {
            assert(dl[i] == s[i]);
        }
        lemma_digits_value_bound(dl);
        assert(is_digit(s[s.len() - 1]));
        assert(pow10(s.len()) == 10 * pow10(dl.len()));
    }
}

/// Appending digits never decreases the value.
pub proof fn lemma_digits_value_prefix(a: Seq<u8>, b: Seq<u8>)
    ensures
        digits_value(a) <= digits_value(a + b),
{
    lemma_digits_value_concat(a, b);
    lemma_pow10_pos(b.len());
    let va = digits_value(a) as int;
    let p = pow10(b.len()) as int;
    assert(va * p >= va) by (nonlinear_arith)
        requires
            va >= 0,
            p >= 1,
    ;
}

/// `nat_digits(n)` is a nonempty digit sequence that spells `n`, with a nonzero
/// first digit unless `n` is zero.
pub proof fn lemma_nat_digits(n: nat)
    ensures
        nat_digits(n).len() >= 1,
        all_digits(nat_digits(n)),
        digits_value(nat_digits(n)) == n,
        n > 0 ==> nat_digits(n)[0] != 48,
        n == 0 ==> nat_digits(n) == seq![48u8],
        nat_digits(n).len() <= 1 + nat_digits(n / 10).len(),
        n < pow10(nat_digits(n).len()),
        n >= 10 ==> pow10((nat_digits(n).len() - 1) as nat) <= n,
    decreases n,
{
    if n < 10 {
        lemma_digit_byte(n);
        lemma_digits_value_single(digit_byte(n));
        reveal_with_fuel(pow10, 2);
    } else {
        let m = n / 10;
        lemma_nat_digits(m);
        lemma_digit_byte(n % 10);
        let s = nat_digits(m);
        lemma_digits_value_push(s, digit_byte(n % 10));
        assert(nat_digits(n)[0] == s[0]);
        assert(pow10(s.len() + 1) == 10 * pow10(s.len()));
        if m >= 10 {
            assert(pow10(s.len()) == 10 * pow10((s.len() - 1) as nat));
        } else {
            assert(s.len() == 1);
            assert(pow10(1) == 10) by {
                reveal_with_fuel(pow10, 2);
            }
        }
    }
}

/// `padded_digits(n, w)` has exactly `w` digits and spells `n mod 10^w`.
pub proof fn lemma_padded_digits(n: nat, w: nat)
    ensures
        padded_digits(n, w).len() == w,
        all_digits(padded_digits(n, w)),
        digits_value(padded_digits(n, w)) == n % pow10(w),
    decreases w,
{
    if w > 0 {
        let w1 = (w - 1) as nat;
        lemma_padded_digits(n / 10, w1);
        lemma_digit_byte(n % 10);
        lemma_digits_value_push(padded_digits(n / 10, w1), digit_byte(n % 10));
        lemma_pow10_pos(w1);
        lemma_mod_tens(n, pow10(w1));
    }
}

/// `(n / 10) mod p * 10 + n mod 10 == n mod (10 p)`.
proof fn lemma_mod_tens(n: nat, p: nat)
    requires
        p >= 1,
    ensures
        ((n / 10) % p) * 10 + n % 10 == n % (10 * p),
{
    let a = n / 10;
    let r = n % 10;
    let q = a / p;
    let s = a % p;
    vstd::arithmetic::div_mod::lemma_fundamental_div_mod(n as int, 10);
    vstd::arithmetic::div_mod::lemma_fundamental_div_mod(a as int, p as int);
    vstd::arithmetic::div_mod::lemma_mod_bound(a as int, p as int);
    assert(n == q * (10 * p) + (s * 10 + r)) by (nonlinear_arith)
        requires
            n == 10 * a + r,
            a == p * q + s,
    ;
    assert(s * 10 + r < 10 * p) by (nonlinear_arith)
        requires
            s < p,
            r < 10,
    ;
    vstd::arithmetic::div_mod::lemma_fundamental_div_mod_converse(
        n as int,
        (10 * p) as int,
        q as int,
        (s * 10 + r) as int,
    );
}

} // verus!
