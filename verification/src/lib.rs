//! Fixed-scale 64-bit decimals.
//!
//! [`Decimal64<S>`] wraps an `i64` and [`UDecimal64<S>`] wraps a `u64`; in both the
//! stored integer is the mathematical value multiplied by `10^S`, where the scale `S`
//! is a compile-time constant. [`Scientific<D>`] adds scientific-notation parsing and
//! display on top of either type.
//!
//! Every operation is specified over the raw integer (the view `d@`), and its
//! contract is proved by Verus.

use vstd::prelude::*;
use vstd::string::StringExecFns;
use crate::digits::nat_digits;
use crate::text::{ascii_chars, push_digits};

pub mod math;
pub mod digits;
pub mod text;
pub mod parse;
pub mod parse_unsigned;
pub mod decimal64;
pub mod udecimal64;
pub mod scientific;

pub use decimal64::Decimal64;
pub use udecimal64::UDecimal64;
pub use scientific::Scientific;

verus! {

/// Rounding mode for the `*_round_*` division and rescaling operations.
#[derive(Debug, Clone, Copy, PartialEq, Eq, Structural)]
pub enum Round {
    /// Round to nearest, ties go to the even digit (banker's rounding).
    NearestEven,
    /// Round to nearest, ties go away from zero.
    Nearest,
    /// Truncate toward zero (same as integer division).
    TruncateTowardZero,
    /// Round toward positive infinity (ceiling).
    TowardPosInf,
    /// Round toward negative infinity (floor).
    TowardNegInf,
}

/// Errors returned by the decimal and scientific-notation parsers.
#[derive(Debug, Clone, PartialEq, Eq, Structural)]
pub enum ParseError {
    /// Input was empty, or contained only a sign or a bare dot.
    Empty,
    /// A byte that is not a digit, sign, or dot was encountered.
    InvalidChar { byte: u8, pos: usize },
    /// The accumulated value exceeded the range of the storage integer.
    Overflow,
    /// Nonzero value combined with a negative exponent so extreme that no
    /// representable non-zero value exists (scientific-notation parsing).
    Underflow,
    /// Reserved for a future strict-mode parse; currently never returned
    /// (extra fractional digits are truncated).
    TooManyFractional { got: u32, max: u32 },
}

/// The text that `char`'s `Debug` formatting writes for `byte as char`: the
/// character in single quotes, escaped as the standard library escapes it.
pub uninterp spec fn char_debug_text(byte: u8) -> Seq<char>;

/// Formats `byte as char` with `{:?}`, that is with `<char as Debug>::fmt`; the
/// result is named `char_debug_text(byte)` (its escaping rules are not restated).
#[verifier::external_body]
fn char_debug(byte: u8) -> (s: String)
    ensures
        s@ == char_debug_text(byte),
{
    format!("{:?}", byte as char)
}

/// The human-readable message of a parse error.
pub open spec fn error_message(e: ParseError) -> Seq<char> {
    match e {
        ParseError::Empty => "empty or missing digits"@,
        ParseError::InvalidChar { byte, pos } => "invalid character "@ + char_debug_text(byte)
            + " at position "@ + ascii_chars(nat_digits(pos as nat)),
        ParseError::Overflow => "numeric overflow"@,
        ParseError::Underflow => "value too small to represent (underflow)"@,
        ParseError::TooManyFractional { got, max } => "too many fractional digits: got "@
            + ascii_chars(nat_digits(got as nat)) + ", max "@ + ascii_chars(nat_digits(max as nat)),
    }
}

impl ParseError {
    /// The human-readable message of the error.
    pub fn to_string(&self) -> (s: String)
        ensures
            s@ == error_message(*self),
    {
        let mut out = String::new();
        match self {
            ParseError::Empty => out.append("empty or missing digits"),
            ParseError::InvalidChar { byte, pos } => {
                out.append("invalid character ");
                let c = char_debug(*byte);
                out.append(c.as_str());
                out.append(" at position ");
                push_digits(&mut out, *pos as u64);
            },
            ParseError::Overflow => out.append("numeric overflow"),
            ParseError::Underflow => out.append("value too small to represent (underflow)"),
            ParseError::TooManyFractional { got, max } => {
                out.append("too many fractional digits: got ");
                push_digits(&mut out, *got as u64);
                out.append(", max ");
                push_digits(&mut out, *max as u64);
            },
        }
        out
    }
}

} // verus!
