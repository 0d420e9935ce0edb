//! Integer model shared by the decimal types: powers of ten, range predicates and
//! the rounded quotient that every division and rescaling operation is specified by.

use vstd::prelude::*;
use vstd::arithmetic::div_mod::*;
use vstd::arithmetic::mul::*;
use crate::Round;

verus! {

/// `10^n`.
pub open spec fn pow10(n: nat) -> nat
    decreases n,
{
    if n == 0 {
        1
    } else {
        10 * pow10((n - 1) as nat)
    }
}

/// Absolute value.
pub open spec fn abs(x: int) -> nat {
    if x < 0 {
        (-x) as nat
    } else {
        x as nat
    }
}

/// `x` lies in the range of `i64`.
pub open spec fn fits_i64(x: int) -> bool {
    i64::MIN <= x <= i64::MAX
}

/// `x` lies in the range of `u64`.
pub open spec fn fits_u64(x: int) -> bool {
    0 <= x <= u64::MAX
}

/// `Some(x)` when `x` lies in the range of `i64`, else `None`.
pub open spec fn checked_i64(x: int) -> Option<int> {
    if fits_i64(x) {
        Some(x)
    } else {
        None
    }
}

/// `Some(x)` when `x` lies in the range of `u64`, else `None`.
pub open spec fn checked_u64(x: int) -> Option<int> {
    if fits_u64(x) {
        Some(x)
    } else {
        None
    }
}

/// `x` clamped into the range of `i64`.
pub open spec fn clamp_i64(x: int) -> int {
    if x > i64::MAX {
        i64::MAX as int
    } else if x < i64::MIN {
        i64::MIN as int
    } else {
        x
    }
}

/// `x` clamped into the range of `u64`.
pub open spec fn clamp_u64(x: int) -> int {
    if x > u64::MAX {
        u64::MAX as int
    } else if x < 0 {
        0
    } else {
        x
    }
}

/// Whether rounding the magnitude quotient `q` (remainder `r`, divisor `b`) moves
/// it one step away from zero, for a quotient whose sign is negative when
/// `negative` holds.
pub open spec fn rounds_away(q: nat, r: nat, b: nat, negative: bool, mode: Round) -> bool {
    match mode {
        Round::NearestEven => 2 * r > b || (2 * r == b && q % 2 == 1),
        Round::Nearest => 2 * r >= b,
        Round::TruncateTowardZero => false,
        Round::TowardPosInf => r != 0 && !negative,
        Round::TowardNegInf => r != 0 && negative,
    }
}

/// The exact quotient `n / d` rounded to an integer as `mode` says (`d != 0`).
///
/// The magnitude `|n| / |d|` is truncated, then moved one step away from zero when
/// the mode asks for it; the sign is that of the exact quotient.
pub open spec fn rounded_quotient(n: int, d: int, mode: Round) -> int
    recommends
        d != 0,
{
    let a = abs(n);
    let b = abs(d);
    let negative = (n < 0) != (d < 0);
    let q = a / b;
    let m: int = if rounds_away(q, a % b, b, negative, mode) {
        q + 1int
    } else {
        q as int
    };
    if negative {
        -m
    } else {
        m
    }
}

/// `n / d` truncated toward zero.
pub open spec fn trunc_quotient(n: int, d: int) -> int
    recommends
        d != 0,
{
    rounded_quotient(n, d, Round::TruncateTowardZero)
}

/// Raw result of same-scale multiplication: `a * b / 10^s`, truncated toward zero.
pub open spec fn scaled_product(a: int, b: int, s: nat) -> int {
    trunc_quotient(a * b, pow10(s) as int)
}

/// Raw result of same-scale division: `a * 10^s / b`, rounded as `mode` says.
pub open spec fn scaled_quotient(a: int, b: int, s: nat, mode: Round) -> int {
    rounded_quotient(a * pow10(s), b, mode)
}

/// Raw value at scale `to` of the raw value `a` at scale `from`, rounded as `mode`
/// says when digits are dropped.
pub open spec fn rescaled(a: int, from: nat, to: nat, mode: Round) -> int {
    if to >= from {
        a * pow10((to - from) as nat)
    } else {
        rounded_quotient(a, pow10((from - to) as nat) as int, mode)
    }
}

/// Raw value at scale `to` of the raw value `a` at scale `from`, or `None` when
/// nonzero digits would be dropped.
pub open spec fn rescaled_exact(a: int, from: nat, to: nat) -> Option<int> {
    if to >= from {
        Some(a * pow10((to - from) as nat))
    } else if a % (pow10((from - to) as nat) as int) == 0 {
        Some(a / (pow10((from - to) as nat) as int))
    } else {
        None
    }
}

pub proof fn lemma_pow10_pos(n: nat)
    ensures
        pow10(n) >= 1,
    decreases n,
{
    if n > 0 {
        lemma_pow10_pos((n - 1) as nat);
    }
}

pub proof fn lemma_pow10_add(a: nat, b: nat)
    ensures
        pow10(a + b) == pow10(a) * pow10(b),
    decreases b,
{
    if b > 0 {
        lemma_pow10_add(a, (b - 1) as nat);
        let x = pow10(a) as int;
        let y = pow10((b - 1) as nat) as int;
        assert(pow10(a + b) == 10 * pow10((a + b - 1) as nat));
        assert((a + b - 1) as nat == a + (b - 1) as nat);
        assert(pow10((a + b - 1) as nat) == x * y);
        assert(pow10(b) == 10 * y);
        assert(10 * (x * y) == x * (10 * y)) by (nonlinear_arith);
        assert(pow10(a + b) == x * pow10(b));
    } else {
        assert(pow10(a) * pow10(0) == pow10(a) * 1);
    }
}

pub proof fn lemma_pow10_mono(a: nat, b: nat)
    requires
        a <= b,
    ensures
        pow10(a) <= pow10(b),
    decreases b,
{
    if a < b {
        lemma_pow10_mono(a, (b - 1) as nat);
        lemma_pow10_pos((b - 1) as nat);
    }
}

pub proof fn lemma_pow10_values()
    ensures
        pow10(18) == 1_000_000_000_000_000_000,
        pow10(19) == 10_000_000_000_000_000_000,
{
    reveal_with_fuel(pow10, 20);
}

/// Below `10^18` for scales up to 18.
pub proof fn lemma_pow10_small(n: nat)
    requires
        n <= 18,
    ensures
        1 <= pow10(n) <= 1_000_000_000_000_000_000,
{
    lemma_pow10_mono(n, 18);
    lemma_pow10_pos(n);
    lemma_pow10_values();
}

/// Truncated-quotient facts: `|n| == |d| * q + r` with `0 <= r < |d|`.
pub proof fn lemma_magnitude_div(n: int, d: int)
    requires
        d != 0,
    ensures
        abs(n) == abs(d) * (abs(n) / abs(d)) + abs(n) % abs(d),
        0 <= abs(n) % abs(d) < abs(d),
        abs(n) / abs(d) <= abs(n),
{
    lemma_fundamental_div_mod(abs(n) as int, abs(d) as int);
    lemma_mod_bound(abs(n) as int, abs(d) as int);
    lemma_div_nonincreasing(abs(n) as int, abs(d) as int);
}

/// The rounded quotient differs from the truncated one by at most one, in the
/// direction away from zero, so its magnitude is at most `|n|` when `|d| >= 2`
/// or the division is exact.
pub proof fn lemma_rounded_quotient_bound(n: int, d: int, mode: Round)
    requires
        d != 0,
    ensures
        abs(rounded_quotient(n, d, mode)) <= abs(n),
{
    let a = abs(n);
    let b = abs(d);
    lemma_magnitude_div(n, d);
    let q = a / b;
    let r = a % b;
    if rounds_away(q, r, b, (n < 0) != (d < 0), mode) {
        assert(r >= 1);
        assert(b >= 2);
        assert(b * q >= 2 * q) by (nonlinear_arith)
            requires
                b >= 2,
                q >= 0,
        ;
    }
}

} // verus!

verus! {

/// Law: each rounding mode picks the integer it names next to the exact quotient
/// `n / d`. With the divisor made positive (`n2 / d2 == n / d`, `d2 > 0`), the
/// result `q` of every mode satisfies `|n2 - q * d2| < d2`, and:
/// - `TowardNegInf`: `q * d2 <= n2 < (q + 1) * d2` (the floor);
/// - `TowardPosInf`: `(q - 1) * d2 < n2 <= q * d2` (the ceiling);
/// - `TruncateTowardZero`: `|q| * d2 <= |n2|`, with `q` of the sign of `n2`;
/// - `Nearest` and `NearestEven`: `2 |n2 - q * d2| <= d2`, and on a tie `Nearest`
///   moves away from zero while `NearestEven` picks an even `q`.
pub proof fn lemma_rounding_modes(n: int, d: int)
    requires
        d != 0,
    ensures
        ({
            let n2 = if d < 0 {
                -n
            } else {
                n
            };
            let d2 = abs(d) as int;
            let fl = rounded_quotient(n, d, Round::TowardNegInf);
            let ce = rounded_quotient(n, d, Round::TowardPosInf);
            let tr = rounded_quotient(n, d, Round::TruncateTowardZero);
            let ne = rounded_quotient(n, d, Round::Nearest);
            let ev = rounded_quotient(n, d, Round::NearestEven);
            &&& fl * d2 <= n2 < (fl + 1) * d2
            &&& (ce - 1) * d2 < n2 <= ce * d2
            &&& abs(tr) * d2 <= abs(n2)
            &&& abs(n2) < (abs(tr) + 1) * d2
            &&& tr * n2 >= 0
            &&& 2 * abs(n2 - ne * d2) <= d2
            &&& 2 * abs(n2 - ne * d2) == d2 ==> abs(ne) * d2 > abs(n2)
            &&& 2 * abs(n2 - ev * d2) <= d2
            &&& 2 * abs(n2 - ev * d2) == d2 ==> ev % 2 == 0
        }),
{
    let n2 = if d < 0 {
        -n
    } else {
        n
    };
    let b = abs(d) as int;
    let a = abs(n) as int;
    lemma_magnitude_div(n, d);
    let q = a / b;
    let r = a % b;
    assert(a == b * q + r);
    assert(abs(n2) == a);
    let negative = (n < 0) != (d < 0);
    assert(n != 0 ==> negative == (n2 < 0));
    // q * b + r == |n2| with 0 <= r < b; every mode is q or q + 1 in magnitude.
    assert(q * b == b * q) by (nonlinear_arith);
    assert((q + 1) * b == q * b + b) by (nonlinear_arith);
    assert((-q) * b == -(q * b)) by (nonlinear_arith);
    assert((-(q + 1)) * b == -(q * b) - b) by (nonlinear_arith);
    assert((-q - 1) * b == -(q * b) - b) by (nonlinear_arith);
    assert((-q + 1) * b == -(q * b) + b) by (nonlinear_arith);
    assert((q + 1 - 1) * b == q * b);
    assert((q - 1) * b == q * b - b) by (nonlinear_arith);
    assert((q + 1 + 1) * b == q * b + 2 * b) by (nonlinear_arith);
    assert((-q - 1 + 1) * b == -(q * b)) by (nonlinear_arith);
    assert((-q + 1) * b == -(q * b) + b);
    assert(q * n2 >= 0 || q == 0 || n2 < 0) by (nonlinear_arith)
        requires
            q >= 0,
    ;
    if n2 < 0 {
        assert((-q) * n2 >= 0) by (nonlinear_arith)
            requires
                q >= 0,
                n2 < 0,
        ;
    } else {
        assert(q * n2 >= 0) by (nonlinear_arith)
            requires
                q >= 0,
                n2 >= 0,
        ;
    }
    if q % 2 == 1 {
        assert((q + 1) % 2 == 0);
        assert((-(q + 1)) % 2 == 0);
    } else {
        assert((-q) % 2 == 0);
    }
}

/// Law: multiplying or dividing by one (`10^s` raw) gives the value back, in every
/// rounding mode.
pub proof fn lemma_one_is_identity(a: int, s: nat, mode: Round)
    ensures
        scaled_product(a, pow10(s) as int, s) == a,
        scaled_quotient(a, pow10(s) as int, s, mode) == a,
{
    let p = pow10(s) as int;
    lemma_pow10_pos(s);
    lemma_exact_quotient(a, p, mode);
    assert(a * p == p * a) by (nonlinear_arith);
    lemma_exact_quotient(a, p, Round::TruncateTowardZero);
}

/// An exact division is unaffected by the rounding mode.
pub proof fn lemma_exact_quotient(a: int, p: int, mode: Round)
    requires
        p > 0,
    ensures
        rounded_quotient(a * p, p, mode) == a,
{
    let n = a * p;
    lemma_magnitude_div(n, p);
    assert(abs(n) == abs(a) * p) by (nonlinear_arith)
        requires
            n == a * p,
            p > 0,
    ;
    lemma_fundamental_div_mod_converse(abs(n) as int, p, abs(a) as int, 0);
    assert((n < 0) == (a < 0)) by (nonlinear_arith)
        requires
            n == a * p,
            p > 0,
    ;
}

/// Law: a lossless rescale can be undone: rescaling its result back to the
/// original scale gives the original raw value.
pub proof fn lemma_rescale_exact_inverse(a: int, from: nat, to: nat)
    ensures
        match rescaled_exact(a, from, to) {
            Some(b) => rescaled_exact(b, to, from) == Some(a),
            None => true,
        },
{
    if to >= from {
        let k = (to - from) as nat;
        let p = pow10(k) as int;
        lemma_pow10_pos(k);
        let b = a * p;
        if to == from {
            assert(a * pow10(0) == a * 1);
            assert(b == a);
            assert(b * pow10(0) == b * 1);
        } else {
            lemma_fundamental_div_mod_converse(b, p, a, 0);
        }
    } else {
        let k = (from - to) as nat;
        let p = pow10(k) as int;
        lemma_pow10_pos(k);
        if a % p == 0 {
            lemma_fundamental_div_mod(a, p);
            assert((a / p) * p == p * (a / p)) by (nonlinear_arith);
        }
    }
}

/// Law: converting between the signed and unsigned raw ranges is lossless both
/// ways: a value that converts converts back to itself.
pub proof fn lemma_sign_conversions_invert(x: int)
    ensures
        x >= 0 ==> match checked_i64(x) {
            Some(s) => checked_u64(s) == Some(x),
            None => true,
        },
        fits_i64(x) ==> match checked_u64(x) {
            Some(u) => checked_i64(u) == Some(x),
            None => true,
        },
{
}

} // verus!

verus! {

/// Law: rounding a rescale to a smaller scale picks an integer next to the exact
/// value `a / 10^(from - to)`: the dropped part is less than one unit of the new
/// scale, and each mode picks the side it names (floor, ceiling, toward zero, or
/// within half a unit for the two nearest modes).
pub proof fn lemma_rescale_down_rounds(a: int, from: nat, to: nat, mode: Round)
    requires
        from > to,
    ensures
        ({
            let p = pow10((from - to) as nat) as int;
            let r = rescaled(a, from, to, mode);
            &&& abs(a - r * p) < p
            &&& mode == Round::TowardNegInf ==> r * p <= a < (r + 1) * p
            &&& mode == Round::TowardPosInf ==> (r - 1) * p < a <= r * p
            &&& mode == Round::TruncateTowardZero ==> abs(r) * p <= abs(a) < (abs(r) + 1) * p
                && r * a >= 0
            &&& (mode == Round::Nearest || mode == Round::NearestEven) ==> 2 * abs(a - r * p) <= p
            &&& mode == Round::Nearest && 2 * abs(a - r * p) == p ==> abs(r) * p > abs(a)
            &&& mode == Round::NearestEven && 2 * abs(a - r * p) == p ==> r % 2 == 0
        }),
{
    let k = (from - to) as nat;
    let p = pow10(k) as int;
    lemma_pow10_pos(k);
    lemma_rounding_modes(a, p);
    let r = rescaled(a, from, to, mode);
    let fl = rounded_quotient(a, p, Round::TowardNegInf);
    let ce = rounded_quotient(a, p, Round::TowardPosInf);
    let tr = rounded_quotient(a, p, Round::TruncateTowardZero);
    assert((fl + 1) * p == fl * p + p) by (nonlinear_arith);
    assert((ce - 1) * p == ce * p - p) by (nonlinear_arith);
    assert((abs(tr) + 1) * p == abs(tr) * p + p) by (nonlinear_arith);
    assert(abs(tr) * p == abs(tr * p)) by (nonlinear_arith)
        requires
            p > 0,
    ;
    assert(tr * a >= 0 ==> a * tr >= 0) by (nonlinear_arith);
}

/// Law: scaling up and back down gives the raw value back, whatever the rounding
/// modes: the down step divides by exactly the factor the up step multiplied by.
pub proof fn lemma_rescale_up_down_inverse(a: int, lo: nat, hi: nat, up: Round, down: Round)
    requires
        lo <= hi,
    ensures
        rescaled(rescaled(a, lo, hi, up), hi, lo, down) == a,
{
    let k = (hi - lo) as nat;
    if lo == hi {
        assert(a * pow10(0) == a * 1);
    } else {
        lemma_pow10_pos(k);
        lemma_exact_quotient(a, pow10(k) as int, down);
    }
}

/// Law: a rounded rescale agrees with the lossless one whenever that one exists,
/// in every mode; when the lossless one does not exist, the rounded result times
/// the dropped factor differs from the input.
pub proof fn lemma_rescale_round_agrees_with_exact(a: int, from: nat, to: nat, mode: Round)
    ensures
        match rescaled_exact(a, from, to) {
            Some(v) => rescaled(a, from, to, mode) == v,
            None => from > to && rescaled(a, from, to, mode) * pow10((from - to) as nat) != a,
        },
{
    if from > to {
        let k = (from - to) as nat;
        let p = pow10(k) as int;
        lemma_pow10_pos(k);
        let r = rescaled(a, from, to, mode);
        if a % p == 0 {
            vstd::arithmetic::div_mod::lemma_fundamental_div_mod(a, p);
            assert((a / p) * p == p * (a / p)) by (nonlinear_arith);
            lemma_exact_quotient(a / p, p, mode);
        } else if r * p == a {
            vstd::arithmetic::div_mod::lemma_fundamental_div_mod_converse(a, p, r, 0);
        }
    }
}

} // verus!

verus! {

/// Law: a same-scale product is the exact product `a * b / 10^s` truncated toward
/// zero: it has the sign of `a * b`, and its magnitude times `10^s` lies within
/// one unit below `|a * b|`.
pub proof fn lemma_scaled_product_truncates(a: int, b: int, s: nat)
    ensures
        ({
            let p = pow10(s) as int;
            let r = scaled_product(a, b, s);
            &&& abs(r) * p <= abs(a * b) < (abs(r) + 1) * p
            &&& r * (a * b) >= 0
        }),
{
    let p = pow10(s) as int;
    lemma_pow10_pos(s);
    lemma_rounding_modes(a * b, p);
    let tr = rounded_quotient(a * b, p, Round::TruncateTowardZero);
    assert(tr * (a * b) == (a * b) * tr) by (nonlinear_arith);
}

/// Law: a same-scale quotient is the exact quotient `a * 10^s / b` rounded as the
/// mode says. With the divisor made positive (`n / d == a * 10^s / b`, `d > 0`) the
/// result `r` is within one unit: `|n - r * d| < d`; `TowardNegInf` and
/// `TowardPosInf` give the floor and the ceiling, `TruncateTowardZero` the integer
/// part, and the nearest modes are within half a unit, breaking ties away from zero
/// or to an even result.
pub proof fn lemma_scaled_quotient_rounds(a: int, b: int, s: nat, mode: Round)
    requires
        b != 0,
    ensures
        ({
            let n = if b < 0 { -(a * pow10(s)) } else { a * pow10(s) };
            let d = abs(b) as int;
            let r = scaled_quotient(a, b, s, mode);
            &&& abs(n - r * d) < d
            &&& mode == Round::TowardNegInf ==> r * d <= n < (r + 1) * d
            &&& mode == Round::TowardPosInf ==> (r - 1) * d < n <= r * d
            &&& mode == Round::TruncateTowardZero ==> abs(r) * d <= abs(n) < (abs(r) + 1) * d
                && r * n >= 0
            &&& (mode == Round::Nearest || mode == Round::NearestEven) ==> 2 * abs(n - r * d) <= d
            &&& mode == Round::Nearest && 2 * abs(n - r * d) == d ==> abs(r) * d > abs(n)
            &&& mode == Round::NearestEven && 2 * abs(n - r * d) == d ==> r % 2 == 0
        }),
{
    let x = a * pow10(s);
    let d = abs(b) as int;
    lemma_rounding_modes(x, b);
    let fl = rounded_quotient(x, b, Round::TowardNegInf);
    let ce = rounded_quotient(x, b, Round::TowardPosInf);
    let tr = rounded_quotient(x, b, Round::TruncateTowardZero);
    let n = if b < 0 { -x } else { x };
    assert((fl + 1) * d == fl * d + d) by (nonlinear_arith);
    assert((ce - 1) * d == ce * d - d) by (nonlinear_arith);
    assert((abs(tr) + 1) * d == abs(tr) * d + d) by (nonlinear_arith);
    assert(abs(tr) * d == abs(tr * d)) by (nonlinear_arith)
        requires
            d > 0,
    ;
    assert(tr * n >= 0 ==> n * tr >= 0) by (nonlinear_arith);
}

} // verus!
