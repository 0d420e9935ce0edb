//! The decimal grammar `sign? digit* ('.' digit*)?` (at least one digit), read at a
//! fixed scale: fractional digits beyond the scale are truncated, fewer are padded
//! with zeros.

use vstd::prelude::*;
use crate::decimal64::Decimal64;
use crate::digits::{
    all_digits, digits_value, is_digit, lemma_digits_value_concat, lemma_digits_value_push, lemma_nat_digits,
    lemma_padded_digits, nat_digits, padded_digits,
};
use crate::math::abs;
use crate::text::{fixed_point_text, signed_fixed_point_text};
use crate::math::{lemma_pow10_add, lemma_pow10_pos, pow10};
use crate::ParseError;
use vstd::string::StringSliceAdditionalSpecFns;

verus! {

/// Position of the first `'.'` in `t` (its length when there is none).
pub open spec fn dot_pos(t: Seq<u8>) -> nat
    decreases t.len(),
{
    if t.len() == 0 {
        0
    } else {
        let k = dot_pos(t.drop_last());
        if k < t.len() - 1 {
            k
        } else if t.last() == 46 {
            (t.len() - 1) as nat
        } else {
            t.len()
        }
    }
}

/// Position of the first byte of `t` that is neither a digit nor the first `'.'`
/// (its length when every byte is allowed).
pub open spec fn first_invalid(t: Seq<u8>) -> nat
    decreases t.len(),
{
    if t.len() == 0 {
        0
    } else {
        let k = first_invalid(t.drop_last());
        if k < t.len() - 1 {
            k
        } else if is_digit(t.last()) || (t.last() == 46 && dot_pos(t.drop_last()) == t.len() - 1) {
            t.len()
        } else {
            (t.len() - 1) as nat
        }
    }
}

/// End of the fractional digits that the value keeps: at most `scale` after the dot.
pub open spec fn kept_end(t: Seq<u8>, scale: nat) -> nat {
    let d = dot_pos(t);
    if t.len() < d + 1 + scale {
        t.len()
    } else {
        d + 1 + scale
    }
}

/// The digits of `t` that make up the value: every digit before the dot and the
/// first `scale` digits after it (later ones are truncated).
pub open spec fn kept_digits(t: Seq<u8>, scale: nat) -> Seq<u8> {
    let d = dot_pos(t);
    if d == t.len() {
        t
    } else {
        t.take(d as int) + t.subrange(d + 1int, kept_end(t, scale) as int)
    }
}

/// How many fractional digits `kept_digits` holds.
pub open spec fn kept_fraction_len(t: Seq<u8>, scale: nat) -> nat {
    let d = dot_pos(t);
    if d == t.len() {
        0
    } else {
        (kept_end(t, scale) - d - 1) as nat
    }
}

/// `t` holds at least one digit.
pub open spec fn has_digit(t: Seq<u8>) -> bool {
    exists|i: int| 0 <= i < t.len() && is_digit(#[trigger] t[i])
}

/// Reading the unsigned number `t` at scale `scale` with values bounded by `max`;
/// `offset` is where `t` starts in the input (error positions are absolute).
///
/// The digits kept before the first invalid byte are accumulated first: if they
/// already exceed `max` the result is `Overflow`, else an invalid byte is reported.
/// With no invalid byte, input without any digit is `Empty`, and otherwise the
/// kept digits are padded with zeros to `scale` fractional digits.
pub open spec fn magnitude_value(t: Seq<u8>, scale: nat, max: nat, offset: nat) -> Result<
    nat,
    ParseError,
> {
    let bad = first_invalid(t);
    let v = digits_value(kept_digits(t.take(bad as int), scale));
    if v > max {
        Err(ParseError::Overflow)
    } else if bad < t.len() {
        Err(ParseError::InvalidChar { byte: t[bad as int], pos: (offset + bad) as usize })
    } else if !has_digit(t) {
        Err(ParseError::Empty)
    } else if v * pow10((scale - kept_fraction_len(t, scale)) as nat) > max {
        Err(ParseError::Overflow)
    } else {
        Ok(v * pow10((scale - kept_fraction_len(t, scale)) as nat))
    }
}

/// Reading the signed decimal `t` at scale `scale` into an `i64` raw value: an
/// optional `'-'` or `'+'` followed by an unsigned number whose magnitude must fit
/// in `i64`.
pub open spec fn signed_decimal_value(t: Seq<u8>, scale: nat) -> Result<int, ParseError> {
    if t.len() == 0 {
        Err(ParseError::Empty)
    } else {
        let start: nat = if t[0] == 45 || t[0] == 43 {
            1
        } else {
            0
        };
        match magnitude_value(t.subrange(start as int, t.len() as int), scale, i64::MAX as nat, start) {
            Ok(v) => if t[0] == 45 {
                Ok(-v)
            } else {
                Ok(v as int)
            },
            Err(e) => Err(e),
        }
    }
}

pub proof fn lemma_positions_bounded(t: Seq<u8>)
    ensures
        dot_pos(t) <= t.len(),
        first_invalid(t) <= t.len(),
    decreases t.len(),
{
    if t.len() > 0 {
        lemma_positions_bounded(t.drop_last());
    }
}

/// On a prefix, both positions are cut at the prefix length.
pub proof fn lemma_positions_prefix(t: Seq<u8>, q: nat)
    requires
        q <= t.len(),
    ensures
        dot_pos(t.take(q as int)) == if dot_pos(t) < q {
            dot_pos(t)
        } else {
            q
        },
        first_invalid(t.take(q as int)) == if first_invalid(t) < q {
            first_invalid(t)
        } else {
            q
        },
    decreases t.len(),
{
    lemma_positions_bounded(t);
    if q == t.len() {
        assert(t.take(q as int) =~= t);
    } else {
        let dl = t.drop_last();
        lemma_positions_prefix(dl, q);
        lemma_positions_bounded(dl);
        assert(dl.take(q as int) =~= t.take(q as int));
    }
}

/// How the positions and the kept digits change when the valid prefix `t[..j]`
/// grows by the byte `t[j]`.
pub proof fn lemma_step(t: Seq<u8>, j: nat, scale: nat)
    requires
        j < t.len(),
        first_invalid(t.take(j as int)) == j,
    ensures
        ({
            let p = t.take(j as int);
            let p1 = t.take(j + 1int);
            let c = t[j as int];
            &&& dot_pos(p1) == if dot_pos(p) < j {
                dot_pos(p)
            } else if c == 46 {
                j
            } else {
                j + 1
            }
            &&& first_invalid(p1) == if is_digit(c) || (c == 46 && dot_pos(p) == j) {
                j + 1
            } else {
                j
            }
            &&& is_digit(c) ==> kept_digits(p1, scale) == if dot_pos(p) == j || kept_fraction_len(
                p,
                scale,
            ) < scale {
                kept_digits(p, scale).push(c)
            } else {
                kept_digits(p, scale)
            }
            &&& is_digit(c) ==> kept_fraction_len(p1, scale) == if dot_pos(p) < j
                && kept_fraction_len(p, scale) < scale {
                kept_fraction_len(p, scale) + 1
            } else {
                kept_fraction_len(p, scale)
            }
            &&& (c == 46 && dot_pos(p) == j) ==> kept_digits(p1, scale) == kept_digits(p, scale)
                && kept_fraction_len(p1, scale) == 0
            &&& has_digit(p1) == (has_digit(p) || is_digit(c))
        }),
{
    let p = t.take(j as int);
    let p1 = t.take(j + 1int);
    let c = t[j as int];
    assert(p1.drop_last() =~= p);
    assert(p1.last() == c);
    lemma_positions_bounded(p);
    let d = dot_pos(p);
    if is_digit(c) {
        if d == j {
            assert(kept_digits(p1, scale) =~= kept_digits(p, scale).push(c));
        } else {
            assert(dot_pos(p1) == d);
            if kept_fraction_len(p, scale) < scale {
                assert(kept_digits(p1, scale) =~= kept_digits(p, scale).push(c));
            } else {
                assert(kept_digits(p1, scale) =~= kept_digits(p, scale));
            }
        }
    } else if c == 46 && d == j {
        assert(kept_digits(p1, scale) =~= kept_digits(p, scale));
    }
    if has_digit(p1) {
        let i = choose|i: int| 0 <= i < p1.len() && is_digit(#[trigger] p1[i]);
        if i < j {
            assert(p[i] == p1[i]);
        }
    }
    if has_digit(p) {
        let i = choose|i: int| 0 <= i < p.len() && is_digit(#[trigger] p[i]);
        assert(p1[i] == p[i]);
    }
    if is_digit(c) {
        assert(p1[j as int] == c);
    }
}

/// Along a valid prefix the value of the kept digits never decreases.
pub proof fn lemma_kept_value_mono(t: Seq<u8>, scale: nat, p: nat, q: nat)
    requires
        p <= q <= first_invalid(t),
    ensures
        digits_value(kept_digits(t.take(p as int), scale)) <= digits_value(
            kept_digits(t.take(q as int), scale),
        ),
    decreases q - p,
{
    lemma_positions_bounded(t);
    if p < q {
        let j = (q - 1) as nat;
        lemma_kept_value_mono(t, scale, p, j);
        lemma_positions_prefix(t, j);
        lemma_positions_prefix(t, q);
        lemma_step(t, j, scale);
        let c = t[j as int];
        if is_digit(c) {
            lemma_digits_value_push(kept_digits(t.take(j as int), scale), c);
        }
    }
}

/// Characterises `dot_pos`: no dot before it, and a dot at it when it is in range.
pub proof fn lemma_dot_pos_char(t: Seq<u8>)
    ensures
        dot_pos(t) <= t.len(),
        forall|k: int| 0 <= k < dot_pos(t) ==> t[k] != 46,
        dot_pos(t) < t.len() ==> t[dot_pos(t) as int] == 46,
    decreases t.len(),
{
    if t.len() > 0 {
        let dl = t.drop_last();
        lemma_dot_pos_char(dl);
        assert forall|k: int| 0 <= k < dot_pos(t) implies t[k] != 46 by {
            if k < dl.len() {
                assert(t[k] == dl[k]);
            }
        }
    }
}

/// A position with no dot before it and a dot at it (or the end) is `dot_pos`.
pub proof fn lemma_dot_pos_unique(t: Seq<u8>, d: nat)
    requires
        d <= t.len(),
        forall|k: int| 0 <= k < d ==> t[k] != 46,
        d < t.len() ==> t[d as int] == 46,
    ensures
        dot_pos(t) == d,
{
    lemma_dot_pos_char(t);
}

/// A byte that the grammar allows at position `k`: a digit, or the first dot.
pub open spec fn allowed_at(t: Seq<u8>, k: int) -> bool {
    is_digit(t[k]) || (t[k] == 46 && dot_pos(t) == k)
}

/// Characterises `first_invalid`: every earlier byte is allowed, and the byte at
/// it (when in range) is not.
pub proof fn lemma_first_invalid_char(t: Seq<u8>)
    ensures
        first_invalid(t) <= t.len(),
        forall|k: int| 0 <= k < first_invalid(t) ==> allowed_at(t, k),
        first_invalid(t) < t.len() ==> !allowed_at(t, first_invalid(t) as int),
    decreases t.len(),
{
    lemma_positions_bounded(t);
    if t.len() > 0 {
        let dl = t.drop_last();
        lemma_first_invalid_char(dl);
        lemma_positions_bounded(dl);
        assert forall|k: int| 0 <= k < t.len() - 1 implies allowed_at(t, k) == allowed_at(dl, k) by {
            assert(t[k] == dl[k]);
        }
    }
}

/// With every byte allowed, `first_invalid` is the length.
pub proof fn lemma_first_invalid_none(t: Seq<u8>)
    requires
        forall|k: int| 0 <= k < t.len() ==> allowed_at(t, k),
    ensures
        first_invalid(t) == t.len(),
{
    lemma_first_invalid_char(t);
}

/// A plain number `a` or `a.f` (digits, `f` no longer than the scale) reads as
/// the digits of `a` and `f` padded to the scale, or `Overflow` when that exceeds
/// `max`.
pub proof fn lemma_plain_number_reads_back(a: Seq<u8>, f: Seq<u8>, scale: nat, max: nat, offset: nat)
    requires
        a.len() >= 1,
        all_digits(a),
        all_digits(f),
        f.len() <= scale,
    ensures
        ({
            let t = if f.len() == 0 {
                a
            } else {
                a + seq![46u8] + f
            };
            let v = digits_value(a + f) * pow10((scale - f.len()) as nat);
            magnitude_value(t, scale, max, offset) == if v <= max {
                Ok::<nat, ParseError>(v)
            } else {
                Err::<nat, ParseError>(ParseError::Overflow)
            }
        }),
{
    let t = if f.len() == 0 {
        a
    } else {
        a + seq![46u8] + f
    };
    let l = a.len();
    if f.len() == 0 {
        lemma_dot_pos_unique(t, t.len());
        assert(a + f =~= a);
    } else {
        assert(t[l as int] == 46);
        lemma_dot_pos_unique(t, l);
        assert(t.take(l as int) =~= a);
        assert(t.subrange(l + 1int, t.len() as int) =~= f);
    }
    assert forall|k: int| 0 <= k < t.len() implies allowed_at(t, k) by {
        if k < l {
            assert(t[k] == a[k]);
        } else if k > l {
            assert(t[k] == f[k - l - 1]);
        }
    }
    lemma_first_invalid_none(t);
    assert(t.take(t.len() as int) =~= t);
    assert(kept_digits(t, scale) =~= a + f);
    assert(kept_fraction_len(t, scale) == f.len());
    assert(t[0] == a[0]);
    assert(is_digit(t[0]));
    lemma_pow10_pos((scale - f.len()) as nat);
    let va = digits_value(a + f) as int;
    let p = pow10((scale - f.len()) as nat) as int;
    assert(va * p >= va) by (nonlinear_arith)
        requires
            va >= 0,
            p >= 1,
    ;
}

/// Law: fractional digits beyond the scale are truncated toward zero: `a.f` with
/// more than `scale` digits in `f` reads as the exact value, `a.f * 10^scale`,
/// rounded down, or `Overflow` when that exceeds `max`.
pub proof fn lemma_extra_fraction_truncated(a: Seq<u8>, f: Seq<u8>, scale: nat, max: nat, offset: nat)
    requires
        a.len() >= 1,
        all_digits(a),
        all_digits(f),
        f.len() > scale,
    ensures
        ({
            let v = digits_value(a + f) / pow10((f.len() - scale) as nat);
            magnitude_value(a + seq![46u8] + f, scale, max, offset) == if v <= max {
                Ok::<nat, ParseError>(v)
            } else {
                Err::<nat, ParseError>(ParseError::Overflow)
            }
        }),
{
    let t = a + seq![46u8] + f;
    let l = a.len();
    assert(t[l as int] == 46);
    lemma_dot_pos_unique(t, l);
    assert forall|k: int| 0 <= k < t.len() implies allowed_at(t, k) by {
        if k < l {
            assert(t[k] == a[k]);
        } else if k > l {
            assert(t[k] == f[k - l - 1]);
        }
    }
    lemma_first_invalid_none(t);
    assert(t.take(t.len() as int) =~= t);
    let kept = f.take(scale as int);
    let dropped = f.skip(scale as int);
    assert(t.take(l as int) =~= a);
    assert(t.subrange(l + 1int, kept_end(t, scale) as int) =~= kept);
    assert(kept_digits(t, scale) =~= a + kept);
    assert(kept_fraction_len(t, scale) == scale);
    assert(is_digit(t[0]));
    assert(t[0] == a[0]);
    // a + f splits into the kept digits and the dropped ones.
    assert(a + f =~= (a + kept) + dropped);
    lemma_digits_value_concat(a + kept, dropped);
    assert forall|i: int| 0 <= i < dropped.len() implies is_digit(#[trigger] dropped[i]) by {
        assert(dropped[i] == f[i + scale]);
    }
    crate::digits::lemma_digits_value_bound(dropped);
    let r = (f.len() - scale) as nat;
    assert(dropped.len() == r);
    lemma_pow10_pos(r);
    vstd::arithmetic::div_mod::lemma_fundamental_div_mod_converse(
        digits_value(a + f) as int,
        pow10(r) as int,
        digits_value(a + kept) as int,
        digits_value(dropped) as int,
    );
    let vk = digits_value(a + kept);
    assert(vk * pow10(0) == vk * 1);
}

/// The fixed-point text of a magnitude reads back as that magnitude.
pub proof fn lemma_fixed_point_reads_back(m: nat, scale: nat, max: nat, offset: nat)
    requires
        m <= max,
    ensures
        magnitude_value(fixed_point_text(m, scale), scale, max, offset) == Ok::<nat, ParseError>(m),
{
    let t = fixed_point_text(m, scale);
    if scale == 0 {
        lemma_nat_digits(m);
        lemma_dot_pos_unique(t, t.len());
        lemma_first_invalid_none(t);
        assert(t.take(t.len() as int) =~= t);
        assert(is_digit(t[0]));
        assert(m * pow10(0) == m * 1);
        assert(kept_digits(t, scale) == t);
        assert(has_digit(t));
    } else {
        let p = pow10(scale);
        lemma_pow10_pos(scale);
        let a = nat_digits(m / p);
        let f = padded_digits(m % p, scale);
        lemma_nat_digits(m / p);
        lemma_padded_digits(m % p, scale);
        let l = a.len();
        assert(t[l as int] == 46);
        lemma_dot_pos_unique(t, l);
        assert forall|k: int| 0 <= k < t.len() implies allowed_at(t, k) by {
            if k < l {
                assert(t[k] == a[k]);
            } else if k > l {
                assert(t[k] == f[k - l - 1]);
            }
        }
        lemma_first_invalid_none(t);
        assert(t.take(t.len() as int) =~= t);
        assert(kept_end(t, scale) == t.len());
        assert(t.take(l as int) =~= a);
        assert(t.subrange(l + 1int, t.len() as int) =~= f);
        assert(kept_digits(t, scale) == a + f);
        lemma_digits_value_concat(a, f);
        vstd::arithmetic::div_mod::lemma_fundamental_div_mod(m as int, p as int);
        assert(is_digit(t[0]));
        assert(kept_fraction_len(t, scale) == scale);
        assert((m / p) * p == p * (m / p)) by (nonlinear_arith);
        assert(m * pow10(0) == m * 1);
        assert(digits_value(a) == m / p);
        vstd::arithmetic::div_mod::lemma_mod_twice(m as int, p as int);
        assert(digits_value(f) == m % p);
        assert(pow10(f.len()) == p);
        assert(digits_value(a + f) == (m / p) * p + m % p);
        assert(digits_value(a + f) == m);
        assert(digits_value(kept_digits(t, scale)) == m);
        assert(digits_value(kept_digits(t.take(first_invalid(t) as int), scale)) == m);
        assert(has_digit(t));
        assert(first_invalid(t) == t.len());
    }
}

/// Law: the fixed-point text of every raw value except `i64::MIN` (whose magnitude
/// does not fit in `i64`) reads back as that raw value, at any scale.
pub proof fn lemma_signed_text_reads_back(raw: int, scale: nat)
    requires
        i64::MIN < raw <= i64::MAX,
    ensures
        signed_decimal_value(signed_fixed_point_text(raw, scale), scale) == Ok::<int, ParseError>(raw),
{
    let t = signed_fixed_point_text(raw, scale);
    let body = fixed_point_text(abs(raw), scale);
    lemma_fixed_point_reads_back(abs(raw), scale, i64::MAX as nat, if raw < 0 { 1 } else { 0 });
    lemma_nat_digits(if scale == 0 { abs(raw) } else { abs(raw) / pow10(scale) });
    assert(body[0] == nat_digits(if scale == 0 { abs(raw) } else { abs(raw) / pow10(scale) })[0]);
    if raw < 0 {
        assert(t.subrange(1, t.len() as int) =~= body);
    } else {
        assert(t =~= body);
        assert(t.subrange(0, t.len() as int) =~= body);
    }
}

/// Reads the unsigned number `bytes[start..end]` at scale `scale`, bounded by `max`.
pub(crate) fn parse_magnitude(bytes: &[u8], start: usize, end: usize, scale: u32, max: u64) -> (r:
    Result<u64, ParseError>)
    requires
        start <= end <= bytes@.len(),
    ensures
        match r {
            Ok(v) => magnitude_value(
                bytes@.subrange(start as int, end as int),
                scale as nat,
                max as nat,
                start as nat,
            ) == Ok::<nat, ParseError>(v as nat),
            Err(e) => magnitude_value(
                bytes@.subrange(start as int, end as int),
                scale as nat,
                max as nat,
                start as nat,
            ) == Err::<nat, ParseError>(e),
        },
{
    let ghost t = bytes@.subrange(start as int, end as int);
    let mut i = start;
    let mut acc: u64 = 0;
    let mut seen_dot = false;
    let mut frac_digits: u32 = 0;
    let mut has_digits = false;
    proof {
        assert(t.take(0) =~= Seq::<u8>::empty());
        assert(digits_value(Seq::<u8>::empty()) == 0);
    }
    while i < end
        invariant
            start <= i <= end <= bytes@.len(),
            t == bytes@.subrange(start as int, end as int),
            first_invalid(t.take(i - start)) == i - start,
            acc == digits_value(kept_digits(t.take(i - start), scale as nat)),
            acc <= max,
            seen_dot == (dot_pos(t.take(i - start)) < i - start),
            frac_digits == kept_fraction_len(t.take(i - start), scale as nat),
            frac_digits <= scale,
            has_digits == has_digit(t.take(i - start)),
        decreases end - i,
    {
        let c = bytes[i];
        let ghost j = (i - start) as nat;
        proof {
            assert(t[j as int] == c);
            lemma_step(t, j, scale as nat);
            lemma_positions_bounded(t.take(j as int));
            lemma_positions_prefix(t, j + 1);
            lemma_positions_bounded(t);
        }
        if c >= 48 && c <= 57 {
            if !seen_dot || frac_digits < scale {
                let next: u128 = acc as u128 * 10 + (c - 48) as u128;
                if next > max as u128 {
                    proof {
                        lemma_digits_value_push(kept_digits(t.take(j as int), scale as nat), c);
                        lemma_kept_value_mono(t, scale as nat, j + 1, first_invalid(t));
                    }
                    return Err(ParseError::Overflow);
                }
                proof {
                    lemma_digits_value_push(kept_digits(t.take(j as int), scale as nat), c);
                }
                acc = next as u64;
                if seen_dot {
                    frac_digits = frac_digits + 1;
                }
            }
            has_digits = true;
        } else if c == 46 && !seen_dot {
            seen_dot = true;
        } else {
            proof {
                assert(first_invalid(t) == j);
            }
            return Err(ParseError::InvalidChar { byte: c, pos: i });
        }
        i = i + 1;
    }
    proof {
        assert(t.take(t.len() as int) =~= t);
        lemma_positions_bounded(t);
    }
    if !has_digits {
        return Err(ParseError::Empty);
    }
    let ghost v = acc as nat;
    let mut k = frac_digits;
    proof {
        assert(v * pow10(0) == v * 1);
    }
    while k < scale
        invariant
            frac_digits <= k <= scale,
            frac_digits == kept_fraction_len(t, scale as nat),
            acc == v * pow10((k - frac_digits) as nat),
            acc <= max,
            v <= max,
            t == bytes@.subrange(start as int, end as int),
            first_invalid(t) == t.len(),
            has_digit(t),
            v == digits_value(kept_digits(t.take(first_invalid(t) as int), scale as nat)),
        decreases scale - k,
    {
        let next: u128 = acc as u128 * 10;
        if next > max as u128 {
            proof {
                let n = (scale - frac_digits) as nat;
                let m = (k - frac_digits) as nat;
                lemma_pow10_add(m, (n - m) as nat);
                assert((m + (n - m) as nat) as nat == n);
                assert(pow10((n - m) as nat) == 10 * pow10((n - m - 1) as nat));
                lemma_pow10_pos((n - m - 1) as nat);
                let a = acc as int;
                let e = pow10((n - m - 1) as nat) as int;
                assert(v * pow10(n) == a * (10 * e)) by (nonlinear_arith)
                    requires
                        a == v * pow10(m),
                        pow10(n) == pow10(m) * pow10((n - m) as nat),
                        pow10((n - m) as nat) == 10 * e,
                ;
                assert(a * (10 * e) >= a * 10) by (nonlinear_arith)
                    requires
                        a >= 0,
                        e >= 1,
                ;
            }
            return Err(ParseError::Overflow);
        }
        proof {
            let m = (k - frac_digits) as nat;
            assert(pow10(m + 1) == 10 * pow10(m));
            assert(v * (10 * pow10(m)) == (v * pow10(m)) * 10) by (nonlinear_arith);
        }
        acc = next as u64;
        k = k + 1;
    }
    Ok(acc)
}

/// Reads the signed decimal `bytes[..end]` at scale `scale` into an `i64` raw value.
pub(crate) fn parse_signed_raw(bytes: &[u8], end: usize, scale: u32) -> (r: Result<i64, ParseError>)
    requires
        end <= bytes@.len(),
    ensures
        match r {
            Ok(v) => signed_decimal_value(bytes@.take(end as int), scale as nat) == Ok::<int, ParseError>(v as int),
            Err(e) => signed_decimal_value(bytes@.take(end as int), scale as nat) == Err::<
                int,
                ParseError,
            >(e),
        },
{
    let ghost t = bytes@.take(end as int);
    if end == 0 {
        return Err(ParseError::Empty);
    }
    let first = bytes[0];
    let start: usize = if first == 45 || first == 43 {
        1
    } else {
        0
    };
    proof {
        assert(t.subrange(start as int, t.len() as int) =~= bytes@.subrange(start as int, end as int));
    }
    match parse_magnitude(bytes, start, end, scale, 0x7fff_ffff_ffff_ffff) {
        Ok(v) => {
            let x = v as i64;
            if first == 45 {
                Ok(-x)
            } else {
                Ok(x)
            }
        },
        Err(e) => Err(e),
    }
}

/// Parses a signed decimal string at scale `S`; extra fractional digits are
/// truncated toward zero.
pub(crate) fn parse<const S: u32>(s: &str) -> (r: Result<Decimal64<S>, ParseError>)
    ensures
        match r {
            Ok(d) => signed_decimal_value(s.spec_bytes(), S as nat) == Ok::<int, ParseError>(d@),
            Err(e) => signed_decimal_value(s.spec_bytes(), S as nat) == Err::<int, ParseError>(e),
        },
{
    let bytes = s.as_bytes();
    proof {
        assert(bytes@.take(bytes@.len() as int) =~= bytes@);
    }
    match parse_signed_raw(bytes, bytes.len(), S) {
        Ok(v) => Ok(Decimal64::from_raw(v)),
        Err(e) => Err(e),
    }
}

} // verus!

verus! {

/// Law: a leading sign only sets the sign. For an unsigned text `u` (empty, or
/// not starting with a sign), `"+" + u` reads as `u` does and `"-" + u` reads as
/// its negation; failures are the same, with an invalid byte reported one
/// position later.
pub proof fn lemma_leading_sign(u: Seq<u8>, scale: nat)
    requires
        u.len() == 0 || (u[0] != 43 && u[0] != 45),
        u.len() < usize::MAX,
    ensures
        match signed_decimal_value(u, scale) {
            Ok(v) => {
                &&& v >= 0
                &&& signed_decimal_value(seq![43u8] + u, scale) == Ok::<int, ParseError>(v)
                &&& signed_decimal_value(seq![45u8] + u, scale) == Ok::<int, ParseError>(-v)
            },
            Err(ParseError::InvalidChar { byte, pos }) => {
                &&& signed_decimal_value(seq![43u8] + u, scale) == Err::<int, ParseError>(
                    ParseError::InvalidChar { byte, pos: (pos + 1) as usize },
                )
                &&& signed_decimal_value(seq![45u8] + u, scale) == Err::<int, ParseError>(
                    ParseError::InvalidChar { byte, pos: (pos + 1) as usize },
                )
            },
            Err(e) => {
                &&& signed_decimal_value(seq![43u8] + u, scale) == Err::<int, ParseError>(e)
                &&& signed_decimal_value(seq![45u8] + u, scale) == Err::<int, ParseError>(e)
            },
        },
{
    let p = seq![43u8] + u;
    let m = seq![45u8] + u;
    assert(p.subrange(1, p.len() as int) =~= u);
    assert(m.subrange(1, m.len() as int) =~= u);
    assert(u.subrange(0, u.len() as int) =~= u);
    lemma_positions_bounded(u);
}

} // verus!
