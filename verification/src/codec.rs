//! The codec itself: a timestamp is encoded as the decimal string of its
//! millisecond count since the epoch, and decoded from such a string. Both
//! directions are single-shot pure transformations.
use vstd::prelude::*;
use vstd::arithmetic::div_mod::{
    lemma_fundamental_div_mod, lemma_mod_division_less_than_divisor,
};
use crate::decimal::{
    dec_digits, dec_repr, is_valid_i64_str, lemma_repr_val, parse_decimal, str_val, to_decimal,
};
use crate::timestamp::{
    lemma_millis_roundtrip, lemma_millis_truncation, timestamp_of_millis, Timestamp,
    NANOS_PER_MILLI,
};

verus! {

/// Why a codec call failed.
#[derive(Clone, Copy, Debug, PartialEq, Eq, Structural)]
pub enum CodecError {
    /// The input string is not the decimal rendering of a signed 64-bit
    /// integer: it is empty, holds a stray character, or its value leaves
    /// the representable range.
    Parse,
    /// The timestamp's millisecond count leaves the signed 64-bit range, so
    /// it has no wire rendering; the failure is reported rather than the
    /// count wrapped or saturated.
    Overflow,
}

/// Encoder: the decimal string of the timestamp's millisecond count since
/// the epoch, the sub-millisecond remainder discarded. Fails exactly when
/// that count leaves the signed 64-bit range.
pub fn encode(t: &Timestamp) -> (r: Result<String, CodecError>)
    ensures
        r.is_ok() <==> t.millis_in_range(),
        r matches Ok(s) ==> s@ == dec_repr(t.spec_millis()),
        r matches Err(e) ==> e == CodecError::Overflow,
{
    match t.checked_millis() {
        Some(ms) => Ok(to_decimal(ms)),
        None => Err(CodecError::Overflow),
    }
}

/// Decoder: parses a decimal millisecond count and decomposes it into a
/// well-formed timestamp, flooring the seconds so that the nanosecond part
/// stays non-negative also before the epoch. Fails exactly when the string
/// is not the decimal rendering of a signed 64-bit integer.
pub fn decode(s: &str) -> (r: Result<Timestamp, CodecError>)
    ensures
        r.is_ok() <==> is_valid_i64_str(s@),
        r matches Ok(t) ==> t == timestamp_of_millis(str_val(s@)) && t.wf() && t.spec_millis()
            == str_val(s@),
        r matches Err(e) ==> e == CodecError::Parse,
{
    match parse_decimal(s) {
        Some(ms) => Ok(Timestamp::from_millis(ms)),
        None => Err(CodecError::Parse),
    }
}

/// Round-trip law: a well-formed timestamp with zero sub-millisecond
/// remainder and an in-range millisecond count encodes to a valid string
/// that decodes back to the same timestamp.
pub proof fn lemma_round_trip(t: Timestamp)
    requires
        t.wf(),
        t.nanoseconds % NANOS_PER_MILLI == 0,
        t.millis_in_range(),
    ensures
        is_valid_i64_str(dec_repr(t.spec_millis())),
        timestamp_of_millis(str_val(dec_repr(t.spec_millis()))) == t,
{
    lemma_repr_val(t.spec_millis());
    lemma_millis_roundtrip(t);
}

/// Truncation law: decoding an encoding discards exactly the nanosecond
/// remainder below one millisecond, so a second encoding of the decoded
/// timestamp reproduces the first string.
pub proof fn lemma_truncation(t: Timestamp)
    requires
        t.wf(),
        t.millis_in_range(),
    ensures
        ({
            let u = timestamp_of_millis(str_val(dec_repr(t.spec_millis())));
            &&& u.wf()
            &&& u.total_nanos() == t.total_nanos() - t.total_nanos() % (NANOS_PER_MILLI as int)
            &&& dec_repr(u.spec_millis()) == dec_repr(t.spec_millis())
        }),
{
    lemma_repr_val(t.spec_millis());
    lemma_millis_truncation(t);
}

/// Sign preservation law: a timestamp strictly before the epoch encodes to
/// a string with a leading `-` whose digits carry the correct magnitude,
/// and with zero sub-millisecond remainder that string decodes back to the
/// original timestamp exactly.
pub proof fn lemma_sign_preservation(t: Timestamp)
    requires
        t.wf(),
        t.total_nanos() < 0,
        t.millis_in_range(),
    ensures
        t.spec_millis() < 0,
        dec_repr(t.spec_millis())[0] == '-',
        dec_repr(t.spec_millis()) == seq!['-'] + dec_digits((-t.spec_millis()) as nat),
        str_val(dec_repr(t.spec_millis())) == t.spec_millis(),
        t.nanoseconds % NANOS_PER_MILLI == 0 ==> timestamp_of_millis(
            str_val(dec_repr(t.spec_millis())),
        ) == t,
{
    lemma_fundamental_div_mod(t.total_nanos(), 1_000_000);
    lemma_mod_division_less_than_divisor(t.total_nanos(), 1_000_000);
    assert(t.spec_millis() < 0);
    lemma_repr_val(t.spec_millis());
    let s = dec_repr(t.spec_millis());
    assert(s == seq!['-'] + dec_digits((-t.spec_millis()) as nat));
    assert(s[0] == '-');
    if t.nanoseconds % NANOS_PER_MILLI == 0 {
        lemma_millis_roundtrip(t);
    }
}

} // verus!
