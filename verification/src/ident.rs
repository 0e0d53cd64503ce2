use vstd::prelude::*;

use crate::error::Error;
use crate::text::{chunk_text, utf8_lossy};

verus! {

/// The numeric value of one character of the standard base-62 alphabet
/// (0 to 9, then A to Z, then a to z), or -1 for any other character.
pub open spec fn base62_digit_val(c: char) -> int {
    if 48 <= c as int <= 57 {
        c as int - 48
    } else if 65 <= c as int <= 90 {
        c as int - 65 + 10
    } else if 97 <= c as int <= 122 {
        c as int - 97 + 36
    } else {
        -1
    }
}

pub open spec fn base62_all_valid(s: Seq<char>) -> bool {
    forall|i: int| 0 <= i < s.len() ==> base62_digit_val(#[trigger] s[i]) >= 0
}

/// The value of base-62 text, most significant character first.
pub open spec fn base62_value(s: Seq<char>) -> int
    decreases s.len(),
{
    if s.len() == 0 {
        0
    } else {
        base62_value(s.drop_last()) * 62 + base62_digit_val(s.last())
    }
}

/// The three outcomes of decoding base-62 text.
pub enum Base62Decode {
    Value(u128),
    Empty,
    Malformed,
}

/// Relies on `base62::decode` (standard alphabet): empty input is reported as
/// empty; non-empty text decodes to its value exactly when every character is
/// in the alphabet and the value fits in 128 bits; anything else is rejected.
#[verifier::external_body]
pub(crate) fn base62_decode(s: &str) -> (r: Base62Decode)
    ensures
        (r is Empty) <==> s@.len() == 0,
        (r is Value) <==> (s@.len() > 0 && base62_all_valid(s@) && base62_value(s@) <= u128::MAX),
        match r {
            Base62Decode::Value(v) => v == base62_value(s@),
            _ => true,
        },
{
    match base62::decode(s) {
        Ok(v) => Base62Decode::Value(v),
        Err(base62::DecodeError::EmptyInput) => Base62Decode::Empty,
        Err(base62::DecodeError::InvalidBase62Byte(_, _)) => Base62Decode::Malformed,
        Err(base62::DecodeError::ArithmeticOverflow) => Base62Decode::Malformed,
    }
}

/// How an identifier chunk's payload is interpreted: empty text means "no
/// identifier yet"; anything else must be base-62 text of a 128-bit value.
pub open spec fn spec_id_decode(payload: Seq<u8>) -> Result<Option<u128>, Error> {
    let s = chunk_text(payload);
    if s.len() == 0 {
        Ok(None)
    } else if base62_all_valid(s) && base62_value(s) <= u128::MAX {
        Ok(Some(base62_value(s) as u128))
    } else {
        Err(Error::InvalidIdFormat)
    }
}

/// Reads an identifier chunk's payload, as `spec_id_decode` describes.
pub(crate) fn id_from_payload(data: &[u8]) -> (r: Result<Option<u128>, Error>)
    ensures
        r == spec_id_decode(data@),
{
    let s = utf8_lossy(data);
    match base62_decode(s.as_str()) {
        Base62Decode::Empty => Ok(None),
        Base62Decode::Value(v) => Ok(Some(v)),
        Base62Decode::Malformed => Err(Error::InvalidIdFormat),
    }
}

/// An empty identifier payload reads as "no identifier yet", never an error.
pub proof fn lemma_empty_id_payload()
    ensures
        spec_id_decode(Seq::<u8>::empty()) == Ok::<Option<u128>, Error>(None),
{
    reveal(crate::text::chunk_text);
    assert(vstd::utf8::valid_utf8(Seq::<u8>::empty()));
    assert(vstd::utf8::decode_utf8(Seq::<u8>::empty()) =~= Seq::<char>::empty());
}

/// A well-formed base-62 identifier payload reads as exactly its value.
pub proof fn lemma_id_payload_value(s: Seq<char>)
    requires
        s.len() > 0,
        base62_all_valid(s),
        base62_value(s) <= u128::MAX,
    ensures
        spec_id_decode(vstd::utf8::encode_utf8(s)) == Ok::<Option<u128>, Error>(
            Some(base62_value(s) as u128),
        ),
{
    crate::text::lemma_chunk_text_round_trip(s);
}

/// A malformed non-empty identifier payload is rejected as such.
pub proof fn lemma_id_payload_malformed(s: Seq<char>)
    requires
        s.len() > 0,
        !base62_all_valid(s) || base62_value(s) > u128::MAX,
    ensures
        spec_id_decode(vstd::utf8::encode_utf8(s)) == Err::<Option<u128>, Error>(
            Error::InvalidIdFormat,
        ),
{
    crate::text::lemma_chunk_text_round_trip(s);
}

/// How an identifier form field's value is interpreted: base-62 text of a
/// 128-bit value, anything else (the empty value included) is malformed.
pub open spec fn spec_form_id_value(value: Seq<char>) -> Result<u128, Error> {
    if value.len() > 0 && base62_all_valid(value) && base62_value(value) <= u128::MAX {
        Ok(base62_value(value) as u128)
    } else {
        Err(Error::InvalidIdFormat)
    }
}

/// Reads an identifier form field's value, as `spec_form_id_value` describes.
pub(crate) fn form_id_from_value(value: &str) -> (r: Result<u128, Error>)
    ensures
        r == spec_form_id_value(value@),
{
    match base62_decode(value) {
        Base62Decode::Value(v) => Ok(v),
        Base62Decode::Empty => Err(Error::InvalidIdFormat),
        Base62Decode::Malformed => Err(Error::InvalidIdFormat),
    }
}

} // verus!
