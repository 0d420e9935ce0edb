//! Reading unsigned decimals: the grammar without a sign (`+` and `-` are invalid
//! bytes), values bounded by `u64::MAX`.

use vstd::prelude::*;
use vstd::string::StringSliceAdditionalSpecFns;
use crate::digits::digits_value;
use crate::parse::{
    lemma_fixed_point_reads_back, lemma_positions_prefix, magnitude_value, parse_magnitude,
};
use crate::text::fixed_point_text;
use crate::udecimal64::UDecimal64;
use crate::ParseError;

verus! {

/// Reading the unsigned decimal `t` at scale `scale` into a `u64` raw value.
pub open spec fn unsigned_decimal_value(t: Seq<u8>, scale: nat) -> Result<nat, ParseError> {
    magnitude_value(t, scale, u64::MAX as nat, 0)
}

/// Law: the fixed-point text of every `u64` raw value reads back as that value.
pub proof fn lemma_unsigned_text_reads_back(raw: nat, scale: nat)
    requires
        raw <= u64::MAX,
    ensures
        unsigned_decimal_value(fixed_point_text(raw, scale), scale) == Ok::<nat, ParseError>(raw),
{
    lemma_fixed_point_reads_back(raw, scale, u64::MAX as nat, 0);
}

/// Law: an unsigned decimal never carries a sign: a leading `'+'` or `'-'` is
/// reported as an invalid byte at position 0.
pub proof fn lemma_sign_rejected(t: Seq<u8>, scale: nat)
    requires
        t.len() > 0,
        t[0] == 43 || t[0] == 45,
    ensures
        unsigned_decimal_value(t, scale) == Err::<nat, ParseError>(
            ParseError::InvalidChar { byte: t[0], pos: 0 },
        ),
{
    let t1 = t.take(1);
    assert(t1.drop_last() =~= Seq::<u8>::empty());
    assert(t1.last() == t[0]);
    lemma_positions_prefix(t, 1);
    assert(t.take(0) =~= Seq::<u8>::empty());
    assert(digits_value(Seq::<u8>::empty()) == 0);
}

/// Reads the unsigned decimal `bytes[..end]` at scale `scale`.
pub(crate) fn parse_unsigned_raw(bytes: &[u8], end: usize, scale: u32) -> (r: Result<u64, ParseError>)
    requires
        end <= bytes@.len(),
    ensures
        match r {
            Ok(v) => unsigned_decimal_value(bytes@.take(end as int), scale as nat) == Ok::<
                nat,
                ParseError,
            >(v as nat),
            Err(e) => unsigned_decimal_value(bytes@.take(end as int), scale as nat) == Err::<
                nat,
                ParseError,
            >(e),
        },
{
    proof {
        assert(bytes@.take(end as int) =~= bytes@.subrange(0, end as int));
    }
    parse_magnitude(bytes, 0, end, scale, u64::MAX)
}

/// Parses an unsigned decimal string at scale `S`; signs are rejected and extra
/// fractional digits are truncated toward zero.
pub(crate) fn parse<const S: u32>(s: &str) -> (r: Result<UDecimal64<S>, ParseError>)
    ensures
        match r {
            Ok(d) => unsigned_decimal_value(s.spec_bytes(), S as nat) == Ok::<nat, ParseError>(d@),
            Err(e) => unsigned_decimal_value(s.spec_bytes(), S as nat) == Err::<nat, ParseError>(e),
        },
{
    let bytes = s.as_bytes();
    proof {
        assert(bytes@.take(bytes@.len() as int) =~= bytes@);
    }
    match parse_unsigned_raw(bytes, bytes.len(), S) {
        Ok(v) => Ok(UDecimal64::from_raw(v)),
        Err(e) => Err(e),
    }
}

} // verus!
