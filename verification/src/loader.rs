//! From the text of a transmission to its bytes.

use vstd::prelude::*;
use vstd::string::StringSliceAdditionalSpecFns;
use vstd::slice::{slice_subrange, slice_to_vec};
use crate::error::DecodeError;

verus! {

/// The line feed that may end a transmission.
pub const LINE_FEED: u8 = 10;

/// The digit that completes a transmission with an odd number of digits.
pub const PADDING: u8 = 48;

/// Whether `c` is an ASCII hexadecimal digit, in either case.
pub open spec fn is_hex_digit(c: u8) -> bool {
    48 <= c <= 57 || 65 <= c <= 70 || 97 <= c <= 102
}

/// The number that the hexadecimal digit `c` stands for.
pub open spec fn hex_value(c: u8) -> nat {
    if 48 <= c <= 57 {
        (c - 48) as nat
    } else if 65 <= c <= 70 {
        (c - 55) as nat
    } else {
        (c - 87) as nat
    }
}

/// Whether `digits` holds hexadecimal digits only.
pub open spec fn all_hex(digits: Seq<u8>) -> bool {
    forall|i: int| 0 <= i < digits.len() ==> is_hex_digit(#[trigger] digits[i])
}

/// The bytes that `digits` spell, two digits to a byte, the high one first.
pub open spec fn hex_bytes(digits: Seq<u8>) -> Seq<u8> {
    Seq::new(
        digits.len() / 2,
        |i: int| (16 * hex_value(digits[2 * i]) + hex_value(digits[2 * i + 1])) as u8,
    )
}

/// Calls `hex::decode` on `digits`.
///
/// Believed of hex: it succeeds exactly on an even number of hexadecimal
/// digits, upper or lower case, and then returns the byte that each pair of
/// digits spells, in order.
#[verifier::external_body]
fn hex_decode(digits: &[u8]) -> (r: Result<Vec<u8>, hex::FromHexError>)
    ensures
        r is Ok <==> (digits@.len() % 2 == 0 && all_hex(digits@)),
        r matches Ok(bytes) ==> bytes@ == hex_bytes(digits@),
{
    hex::decode(digits)
}

/// The failure of `hex::decode`.
#[verifier::external_type_specification]
#[verifier::external_body]
pub struct ExFromHexError(hex::FromHexError);

/// `text` without the line feed at its end, if it has one.
pub open spec fn without_line_feed(text: Seq<u8>) -> Seq<u8> {
    if text.len() > 0 && text.last() == LINE_FEED {
        text.drop_last()
    } else {
        text
    }
}

/// `digits`, with the digit 0 added where their number is odd.
pub open spec fn padded(digits: Seq<u8>) -> Seq<u8> {
    if digits.len() % 2 == 1 {
        digits.push(PADDING)
    } else {
        digits
    }
}

/// The bytes of the transmission `text`: one line feed at the end is
/// dropped, an odd number of digits is completed by a 0, and each pair of
/// digits spells a byte.
pub open spec fn loaded(text: Seq<u8>) -> Result<Seq<u8>, DecodeError> {
    let digits = padded(without_line_feed(text));
    if all_hex(digits) {
        Ok(hex_bytes(digits))
    } else {
        Err(DecodeError::InvalidHexDigit)
    }
}

/// The bytes that the hexadecimal text `text` spells.
pub fn load(text: &str) -> (r: Result<Vec<u8>, DecodeError>)
    ensures
        match loaded(text.spec_bytes()) {
            Ok(bytes) => r matches Ok(v) && v@ == bytes,
            Err(e) => r matches Err(x) && x == e,
        },
{
    let bytes = text.as_bytes();
    let n = bytes.len();
    let digits = if n > 0 && bytes[n - 1] == LINE_FEED {
        slice_subrange(bytes, 0, n - 1)
    } else {
        bytes
    };
    let decoded = if digits.len() % 2 == 1 {
        let mut completed = slice_to_vec(digits);
        completed.push(PADDING);
        hex_decode(completed.as_slice())
    } else {
        hex_decode(digits)
    };
    match decoded {
        Ok(v) => Ok(v),
        Err(_) => Err(DecodeError::InvalidHexDigit),
    }
}

} // verus!
