//! Building decimal text: the spec of the fixed-point and integer renderings, and
//! the verified functions that append them to a `String`.

use vstd::prelude::*;
use vstd::string::StringExecFns;
use vstd::utf8::{encode_utf8, is_ascii_chars, is_ascii_chars_encode_utf8};
use crate::digits::{
    all_digits, digit_byte, is_digit, lemma_nat_digits, lemma_padded_digits, nat_digits,
    padded_digits,
};
use crate::math::{abs, lemma_pow10_small, pow10};

verus! {

/// The characters spelled by ASCII bytes.
pub open spec fn ascii_chars(b: Seq<u8>) -> Seq<char> {
    b.map_values(|x: u8| x as char)
}

/// Every byte of `b` is ASCII.
pub open spec fn all_ascii(b: Seq<u8>) -> bool {
    forall|i: int| 0 <= i < b.len() ==> #[trigger] b[i] < 128
}

/// The fixed-point text of the magnitude `m` at scale `scale`: the integer part,
/// then (for a nonzero scale) a dot and exactly `scale` fractional digits.
pub open spec fn fixed_point_text(m: nat, scale: nat) -> Seq<u8> {
    if scale == 0 {
        nat_digits(m)
    } else {
        nat_digits(m / pow10(scale)) + seq![46u8] + padded_digits(m % pow10(scale), scale)
    }
}

/// `'-'` for a negative value, nothing otherwise.
pub open spec fn sign_text(negative: bool) -> Seq<u8> {
    if negative {
        seq![45u8]
    } else {
        seq![]
    }
}

/// The fixed-point text of the signed raw value `raw` at scale `scale`.
pub open spec fn signed_fixed_point_text(raw: int, scale: nat) -> Seq<u8> {
    sign_text(raw < 0) + fixed_point_text(abs(raw), scale)
}

/// The decimal text of an integer: a `'-'` for negatives, then its digits.
pub open spec fn int_text(x: int) -> Seq<u8> {
    sign_text(x < 0) + nat_digits(abs(x))
}

pub proof fn lemma_ascii_chars_concat(a: Seq<u8>, b: Seq<u8>)
    ensures
        ascii_chars(a + b) == ascii_chars(a) + ascii_chars(b),
{
    assert(ascii_chars(a + b) =~= ascii_chars(a) + ascii_chars(b));
}

pub proof fn lemma_all_ascii_concat(a: Seq<u8>, b: Seq<u8>)
    requires
        all_ascii(a),
        all_ascii(b),
    ensures
        all_ascii(a + b),
{
    assert forall|i: int| 0 <= i < (a + b).len() implies #[trigger] (a + b)[i] < 128 by {
        if i < a.len() {
            assert((a + b)[i] == a[i]);
        } else {
            assert((a + b)[i] == b[i - a.len()]);
        }
    }
}

/// ASCII bytes encode back to themselves in UTF-8.
pub proof fn lemma_ascii_utf8(b: Seq<u8>)
    requires
        all_ascii(b),
    ensures
        encode_utf8(ascii_chars(b)) == b,
{
    let cs = ascii_chars(b);
    assert(is_ascii_chars(cs)) by {
        assert forall|i: int| 0 <= i < cs.len() implies '\0' <= #[trigger] cs[i] <= '\u{7f}' by {
            assert(cs[i] == b[i] as char);
        }
    }
    is_ascii_chars_encode_utf8(cs);
    assert forall|i: int| 0 <= i < b.len() implies encode_utf8(cs)[i] == b[i] by {
        assert(cs[i] == b[i] as char);
    }
    assert(encode_utf8(cs) =~= b);
}

/// The fixed-point and integer texts are ASCII.
pub proof fn lemma_texts_ascii(raw: int, scale: nat)
    ensures
        all_ascii(signed_fixed_point_text(raw, scale)),
        all_ascii(int_text(raw)),
{
    let m = abs(raw);
    lemma_nat_digits(m);
    lemma_nat_digits(m / pow10(scale));
    lemma_padded_digits(m % pow10(scale), scale);
    let t = signed_fixed_point_text(raw, scale);
    let s = sign_text(raw < 0);
    let f = fixed_point_text(m, scale);
    assert forall|i: int| 0 <= i < t.len() implies #[trigger] t[i] < 128 by {
        if i >= s.len() {
            let k = i - s.len();
            assert(t[i] == f[k]);
            if scale != 0 {
                let a = nat_digits(m / pow10(scale));
                if k < a.len() {
                    assert(f[k] == a[k]);
                } else if k > a.len() {
                    assert(f[k] == padded_digits(m % pow10(scale), scale)[k - a.len() - 1]);
                }
            }
        }
    }
    let u = int_text(raw);
    assert forall|i: int| 0 <= i < u.len() implies #[trigger] u[i] < 128 by {
        if i >= s.len() {
            assert(u[i] == nat_digits(m)[i - s.len()]);
        }
    }
}

fn digit_str(d: u64) -> (s: &'static str)
    requires
        d < 10,
    ensures
        s@ == ascii_chars(seq![digit_byte(d as nat)]),
{
    proof {
        assert(ascii_chars(seq![digit_byte(d as nat)]) =~= seq![digit_byte(d as nat) as char]);
    }
    match d {
        0 => {
            proof {
                reveal_strlit("0");
            }
            "0"
        },
        1 => {
            proof {
                reveal_strlit("1");
            }
            "1"
        },
        2 => {
            proof {
                reveal_strlit("2");
            }
            "2"
        },
        3 => {
            proof {
                reveal_strlit("3");
            }
            "3"
        },
        4 => {
            proof {
                reveal_strlit("4");
            }
            "4"
        },
        5 => {
            proof {
                reveal_strlit("5");
            }
            "5"
        },
        6 => {
            proof {
                reveal_strlit("6");
            }
            "6"
        },
        7 => {
            proof {
                reveal_strlit("7");
            }
            "7"
        },
        8 => {
            proof {
                reveal_strlit("8");
            }
            "8"
        },
        _ => {
            proof {
                reveal_strlit("9");
            }
            "9"
        },
    }
}

/// The digits of `n` as bytes.
pub(crate) fn digits_of(n: u64) -> (v: Vec<u8>)
    ensures
        v@ == nat_digits(n as nat),
    decreases n,
{
    let d = (n % 10) as u8 + 48;
    if n >= 10 {
        let mut v = digits_of(n / 10);
        v.push(d);
        v
    } else {
        let mut v = Vec::new();
        v.push(d);
        proof {
            assert(v@ =~= seq![d]);
        }
        v
    }
}

/// Appends the ASCII digits `v[from..to]`.
pub(crate) fn push_digit_bytes(out: &mut String, v: &Vec<u8>, from: usize, to: usize)
    requires
        from <= to <= v@.len(),
        all_digits(v@),
    ensures
        final(out)@ == old(out)@ + ascii_chars(v@.subrange(from as int, to as int)),
{
    let mut i = from;
    proof {
        assert(ascii_chars(v@.subrange(from as int, from as int)) =~= Seq::<char>::empty());
        assert(old(out)@ + Seq::<char>::empty() =~= old(out)@);
    }
    while i < to
        invariant
            from <= i <= to <= v@.len(),
            all_digits(v@),
            out@ == old(out)@ + ascii_chars(v@.subrange(from as int, i as int)),
        decreases to - i,
    {
        let c = v[i];
        proof {
            assert(is_digit(v@[i as int]));
            assert(digit_byte((c - 48) as nat) == c);
            assert(v@.subrange(from as int, i + 1) =~= v@.subrange(from as int, i as int).push(c));
            lemma_ascii_chars_concat(v@.subrange(from as int, i as int), seq![c]);
        }
        out.append(digit_str((c - 48) as u64));
        i = i + 1;
    }
}

/// Appends the digits of `n`.
pub(crate) fn push_digits(out: &mut String, n: u64)
    ensures
        final(out)@ == old(out)@ + ascii_chars(nat_digits(n as nat)),
    decreases n,
{
    if n >= 10 {
        push_digits(out, n / 10);
    }
    out.append(digit_str(n % 10));
    proof {
        if n >= 10 {
            lemma_ascii_chars_concat(nat_digits((n / 10) as nat), seq![digit_byte((n % 10) as nat)]);
        }
    }
}

/// Appends the lowest `width` digits of `n`, zero-padded.
pub(crate) fn push_padded_digits(out: &mut String, n: u64, width: u32)
    ensures
        final(out)@ == old(out)@ + ascii_chars(padded_digits(n as nat, width as nat)),
    decreases width,
{
    if width > 0 {
        push_padded_digits(out, n / 10, width - 1);
        out.append(digit_str(n % 10));
        proof {
            lemma_ascii_chars_concat(
                padded_digits((n / 10) as nat, (width - 1) as nat),
                seq![digit_byte((n % 10) as nat)],
            );
        }
    } else {
        proof {
            assert(ascii_chars(seq![]) =~= Seq::<char>::empty());
        }
    }
}

/// Appends `'-'` when `negative` holds.
pub(crate) fn push_sign(out: &mut String, negative: bool)
    ensures
        final(out)@ == old(out)@ + ascii_chars(sign_text(negative)),
{
    if negative {
        proof {
            reveal_strlit("-");
            assert(ascii_chars(seq![45u8]) =~= seq!['-']);
        }
        out.append("-");
    } else {
        proof {
            assert(ascii_chars(seq![]) =~= Seq::<char>::empty());
        }
    }
}

/// Appends the fixed-point text of the magnitude `m` at scale `scale`.
pub(crate) fn push_fixed_point(out: &mut String, m: u64, scale: u32)
    requires
        scale <= 18,
    ensures
        final(out)@ == old(out)@ + ascii_chars(fixed_point_text(m as nat, scale as nat)),
{
    if scale == 0 {
        push_digits(out, m);
    } else {
        proof {
            lemma_pow10_small(scale as nat);
        }
        let divisor = crate::udecimal64::const_pow10_u64(scale);
        push_digits(out, m / divisor);
        proof {
            reveal_strlit(".");
            assert(ascii_chars(seq![46u8]) =~= seq!['.']);
        }
        out.append(".");
        push_padded_digits(out, m % divisor, scale);
        proof {
            lemma_ascii_chars_concat(nat_digits((m / divisor) as nat), seq![46u8]);
            lemma_ascii_chars_concat(
                nat_digits((m / divisor) as nat) + seq![46u8],
                padded_digits((m % divisor) as nat, scale as nat),
            );
        }
    }
}

/// Appends the decimal text of `x`.
pub(crate) fn push_int(out: &mut String, x: i64)
    ensures
        final(out)@ == old(out)@ + ascii_chars(int_text(x as int)),
{
    push_sign(out, x < 0);
    push_digits(out, magnitude_i64(x));
    proof {
        lemma_ascii_chars_concat(sign_text(x < 0), nat_digits(abs(x as int)));
    }
}

/// `|x|` as a `u64` (defined for `i64::MIN` too).
pub(crate) fn magnitude_i64(x: i64) -> (m: u64)
    ensures
        m == abs(x as int),
{
    if x < 0 {
        ((-(x as i128)) as u64)
    } else {
        x as u64
    }
}

} // verus!
