//! Byte strings as text in hexadecimal digits.

use vstd::prelude::*;
use vstd::string::StringSliceAdditionalSpecFns;
use crate::address::{ascii_chars, ascii_string, Address};
use crate::hash::Blake2bHash;
use crate::nibbles::{digit_char, digit_value, digits_of};

verus! {

/// The text of a byte string: two small hexadecimal digits for each byte,
/// the higher one first.
pub open spec fn hex_text(bytes: Seq<u8>) -> Seq<u8> {
    Seq::new(bytes.len() * 2, |i: int| digit_char(digits_of(bytes)[i]))
}

/// Whether a text can be read as bytes: it holds an even number of
/// characters, each a hexadecimal digit, small or capital.
pub open spec fn hex_readable(text: Seq<u8>) -> bool {
    text.len() % 2 == 0 && forall|i: int| 0 <= i < text.len() ==> digit_value(#[trigger] text[i]) is Some
}

/// The bytes that a readable text stands for.
pub open spec fn hex_bytes(text: Seq<u8>) -> Seq<u8> {
    Seq::new(
        text.len() / 2,
        |i: int| (16 * digit_value(text[2 * i])->0 + digit_value(text[2 * i + 1])->0) as u8,
    )
}

/// `hex::encode`: the text holds two small hexadecimal digits for each byte.
#[verifier::external_body]
fn hex_encode(data: &[u8]) -> (text: Vec<u8>)
    ensures
        text@ == hex_text(data@),
{
    hex::encode(data).into_bytes()
}

/// `hex::decode`: a text is read exactly where it holds an even number of
/// hexadecimal digits, and then each pair of digits gives a byte.
#[verifier::external_body]
fn hex_decode(text: &[u8]) -> (data: Option<Vec<u8>>)
    ensures
        data is Some <==> hex_readable(text@),
        data is Some ==> data->0@ == hex_bytes(text@),
{
    hex::decode(text).ok()
}

/// The text of a byte string in hexadecimal digits.
pub fn to_hex(data: &[u8]) -> (r: String)
    ensures
        r@ == ascii_chars(hex_text(data@)),
{
    let text = hex_encode(data);
    ascii_string(text)
}

/// The bytes that a text in hexadecimal digits stands for, or `None` where
/// the text cannot be read.
pub fn from_hex(text: &str) -> (r: Option<Vec<u8>>)
    ensures
        r is Some <==> hex_readable(vstd::utf8::encode_utf8(text@)),
        r is Some ==> r->0@ == hex_bytes(vstd::utf8::encode_utf8(text@)),
{
    hex_decode(text.as_bytes())
}

impl Address {
    /// The address in hexadecimal digits.
    pub fn to_hex(&self) -> (r: String)
        ensures
            r@ == ascii_chars(hex_text(self@)),
    {
        to_hex(self.0.as_slice())
    }

    /// The address that forty hexadecimal digits stand for.
    pub fn from_hex(text: &str) -> (r: Option<Address>)
        ensures
            r is Some <==> hex_readable(vstd::utf8::encode_utf8(text@)) && vstd::utf8::encode_utf8(
                text@,
            ).len() == 40,
            r is Some ==> r->0@ == hex_bytes(vstd::utf8::encode_utf8(text@)),
    {
        match from_hex(text) {
            None => None,
            Some(bytes) => if bytes.len() == 20 {
                Some(Address::from_slice(bytes.as_slice()))
            } else {
                None
            },
        }
    }
}

impl Blake2bHash {
    /// The hash in hexadecimal digits.
    pub fn to_hex(&self) -> (r: String)
        ensures
            r@ == ascii_chars(hex_text(self@)),
    {
        to_hex(self.bytes.as_slice())
    }
}

} // verus!
