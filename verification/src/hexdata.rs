//! Hex text, as topics and data arrive: `0x` and two digits for each byte.

use crate::error::DecodeError;
use vstd::prelude::*;
use vstd::slice::slice_subrange;
use vstd::utf8::encode_utf8;

verus! {

/// Whether `b` is the ASCII code of a hex digit, of either case.
pub open spec fn is_hex_digit(b: u8) -> bool {
    ||| ('0' as u8) <= b && b <= ('9' as u8)
    ||| ('a' as u8) <= b && b <= ('f' as u8)
    ||| ('A' as u8) <= b && b <= ('F' as u8)
}

/// The number that a hex digit stands for.
pub open spec fn hex_digit_value(b: u8) -> nat {
    if ('0' as u8) <= b && b <= ('9' as u8) {
        (b - ('0' as u8)) as nat
    } else if ('a' as u8) <= b && b <= ('f' as u8) {
        (b - ('a' as u8) + 10) as nat
    } else {
        (b - ('A' as u8) + 10) as nat
    }
}

/// Whether `digits` are hex digits, two for each byte.
pub open spec fn is_hex_digits(digits: Seq<u8>) -> bool {
    digits.len() % 2 == 0 && forall|i: int| 0 <= i < digits.len() ==> is_hex_digit(#[trigger] digits[i])
}

/// The bytes that `digits` spell, two digits for each byte, the high one first.
pub open spec fn hex_bytes(digits: Seq<u8>) -> Seq<u8> {
    Seq::new(
        digits.len() / 2,
        |i: int| (16 * hex_digit_value(digits[2 * i]) + hex_digit_value(digits[2 * i + 1])) as u8,
    )
}

/// The bytes that `text` stands for: `text` must be `0x` followed by hex digits, two
/// for each byte.
pub open spec fn hex_payload(text: Seq<u8>) -> Option<Seq<u8>> {
    if text.len() >= 2 && text[0] == '0' as u8 && text[1] == 'x' as u8 && is_hex_digits(text.skip(2)) {
        Some(hex_bytes(text.skip(2)))
    } else {
        None
    }
}

/// The error of `hex::decode`, of which nothing is known.
#[verifier::external_type_specification]
#[verifier::external_body]
pub struct ExFromHexError(hex::FromHexError);

/// Calls `hex::decode`. Claimed: it succeeds exactly on an even number of hex digits
/// of either case, and then gives one byte for each two digits, the high digit first.
#[verifier::external_body]
fn hex_decode(digits: &[u8]) -> (out: Result<Vec<u8>, hex::FromHexError>)
    ensures
        out is Ok <==> is_hex_digits(digits@),
        out matches Ok(bytes) ==> bytes@ == hex_bytes(digits@),
{
    hex::decode(digits)
}

/// Decodes hex text that starts with `0x`.
pub fn decode_prefixed_hex(text: &str) -> (out: Result<Vec<u8>, DecodeError>)
    ensures
        match out {
            Ok(bytes) => hex_payload(encode_utf8(text@)) == Some(bytes@),
            Err(e) => e == DecodeError::MalformedHexData && hex_payload(encode_utf8(text@)) is None,
        },
{
    let raw = text.as_bytes();
    let len = raw.len();
    if len < 2 || raw[0] != '0' as u8 || raw[1] != 'x' as u8 {
        return Err(DecodeError::MalformedHexData);
    }
    let digits = slice_subrange(raw, 2, len);
    assert(digits@ =~= raw@.skip(2));
    match hex_decode(digits) {
        Ok(bytes) => Ok(bytes),
        Err(_) => Err(DecodeError::MalformedHexData),
    }
}

} // verus!
