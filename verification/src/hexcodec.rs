//! Hexadecimal text, as bytes of ASCII, to bytes and back.

use vstd::prelude::*;
use crate::error::Error;

verus! {

/// The value of a hexadecimal digit, in either case.
pub open spec fn hex_digit(c: u8) -> Option<int> {
    if 0x30 <= c <= 0x39 {
        Some(c - 0x30)
    } else if 0x61 <= c <= 0x66 {
        Some(c - 0x61 + 10)
    } else if 0x41 <= c <= 0x46 {
        Some(c - 0x41 + 10)
    } else {
        None
    }
}

/// The lower-case digit of a value below sixteen.
pub open spec fn hex_char(v: int) -> u8 {
    if v < 10 {
        (0x30 + v) as u8
    } else {
        (0x61 + v - 10) as u8
    }
}

/// An even number of hexadecimal digits.
pub open spec fn hex_valid(s: Seq<u8>) -> bool {
    &&& s.len() % 2 == 0
    &&& forall|i: int| 0 <= i < s.len() ==> hex_digit(#[trigger] s[i]).is_some()
}

/// The bytes that the digits of `s` spell, two digits to a byte.
pub open spec fn hex_decoded(s: Seq<u8>) -> Seq<u8> {
    Seq::new(
        s.len() / 2,
        |i: int| (hex_digit(s[2 * i]).unwrap() * 16 + hex_digit(s[2 * i + 1]).unwrap()) as u8,
    )
}

/// The digits that spell `b`, in lower case.
pub open spec fn hex_encoded(b: Seq<u8>) -> Seq<u8> {
    Seq::new(
        b.len() * 2,
        |i: int|
            if i % 2 == 0 {
                hex_char(b[i / 2] as int / 16)
            } else {
                hex_char(b[i / 2] as int % 16)
            },
    )
}

#[verifier::external_type_specification]
#[verifier::external_body]
pub struct ExFromHexError(hex::FromHexError);

/// `hex::decode`: it succeeds on an even number of hexadecimal digits of
/// either case and on nothing else, and gives the bytes that they spell.
#[verifier::external_body]
fn hex_decode(data: &[u8]) -> (r: Result<Vec<u8>, hex::FromHexError>)
    ensures
        r.is_ok() == hex_valid(data@),
        r matches Ok(b) ==> b@ == hex_decoded(data@),
{
    hex::decode(data)
}

/// `hex::encode`: two lower-case digits for each byte, as bytes of ASCII.
#[verifier::external_body]
fn hex_encode(data: &[u8]) -> (r: Vec<u8>)
    ensures
        r@ == hex_encoded(data@),
{
    hex::encode(data).into_bytes()
}

/// The bytes that a hexadecimal string spells.
pub fn decode_hex(data: &[u8]) -> (r: Result<Vec<u8>, Error>)
    ensures
        r.is_ok() == hex_valid(data@),
        r matches Ok(b) ==> b@ == hex_decoded(data@),
        r matches Err(e) ==> e == Error::Hex,
{
    match hex_decode(data) {
        Ok(b) => Ok(b),
        Err(_) => Err(Error::Hex),
    }
}

/// The lower-case hexadecimal string that spells `data`.
pub fn encode_hex(data: &[u8]) -> (r: Vec<u8>)
    ensures
        r@ == hex_encoded(data@),
{
    hex_encode(data)
}

} // verus!
