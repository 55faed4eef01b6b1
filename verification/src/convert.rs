//! The executable conversions.
//!
//! The LEB128 conversions are done by the `leb128` crate and the hexadecimal
//! ones by the `hex` crate. Each call stands in a private function whose
//! contract records what the crate does; the public functions are proved
//! against those contracts.

use crate::hexadecimal::{decoded_hex, is_upper_digit, upper_hex};
use crate::hexadecimal_laws::{lemma_hex_round_trip, lemma_upper_hex_shape};
use crate::leb::{decoded_signed, decoded_unsigned, signed_encoding, unsigned_encoding};
use crate::leb_laws::{lemma_signed_round_trip, lemma_unsigned_round_trip};
use vstd::prelude::*;

verus! {

#[verifier::external_type_specification]
#[verifier::external_body]
pub struct ExLebReadError(leb128::read::Error);

#[verifier::external_type_specification]
#[verifier::external_body]
pub struct ExIoError(std::io::Error);

#[verifier::external_type_specification]
#[verifier::external_body]
pub struct ExFromHexError(hex::FromHexError);

/// Calls `leb128::read::unsigned` on a reader over `bytes`.
///
/// The crate reads byte after byte and gathers the low seven bits of each,
/// the first read being the least significant. It returns the number at the
/// first byte whose high bit is clear. It fails when the bytes run out
/// before that, and when the tenth byte is neither `0x00` nor `0x01`: so it
/// succeeds exactly on a frame of at most ten bytes whose value fits in 64
/// bits. Bytes behind the frame are not read.
#[verifier::external_body]
fn read_unsigned(bytes: &Vec<u8>) -> (r: Result<u64, leb128::read::Error>)
    ensures
        match r {
            Ok(value) => decoded_unsigned(bytes@) == Some(value),
            Err(_) => decoded_unsigned(bytes@) is None,
        },
{
    let mut readable = &bytes[..];
    leb128::read::unsigned(&mut readable)
}

/// Calls `leb128::write::unsigned` with `out` as the writer.
///
/// The crate writes the low seven bits of the value and shifts them out,
/// until nothing is left; every byte but the last gets the high bit. It
/// returns the number of bytes written, and fails only where the writer does.
/// A `Vec<u8>` as writer appends what it is given and does not fail.
#[verifier::external_body]
fn write_unsigned(out: &mut Vec<u8>, value: u64) -> (r: Result<usize, std::io::Error>)
    ensures
        final(out)@ == old(out)@ + unsigned_encoding(value as nat),
        match r {
            Ok(n) => n == unsigned_encoding(value as nat).len(),
            Err(_) => false,
        },
{
    leb128::write::unsigned(out, value)
}

/// Calls `leb128::read::signed` on a reader over `bytes`.
///
/// The crate gathers the groups as `leb128::read::unsigned` does, and at the
/// first byte whose high bit is clear fills the bits above the last group
/// with that group's top bit. It fails when the bytes run out before that
/// byte, and when the tenth byte is neither `0x00` nor `0x7f`: so it succeeds
/// exactly on a frame of at most ten bytes whose two's complement value fits
/// in 64 bits. Bytes behind the frame are not read.
#[verifier::external_body]
fn read_signed(bytes: &Vec<u8>) -> (r: Result<i64, leb128::read::Error>)
    ensures
        match r {
            Ok(value) => decoded_signed(bytes@) == Some(value),
            Err(_) => decoded_signed(bytes@) is None,
        },
{
    let mut readable = &bytes[..];
    leb128::read::signed(&mut readable)
}

/// Calls `leb128::write::signed` with `out` as the writer.
///
/// The crate writes the low seven bits of the value and shifts them out,
/// keeping the sign, until what is left is all sign and agrees with the top
/// bit of the group just written; every byte but the last gets the high bit.
/// It returns the number of bytes written, and fails only where the writer
/// does. A `Vec<u8>` as writer appends what it is given and does not fail.
#[verifier::external_body]
fn write_signed(out: &mut Vec<u8>, value: i64) -> (r: Result<usize, std::io::Error>)
    ensures
        final(out)@ == old(out)@ + signed_encoding(value as int),
        match r {
            Ok(n) => n == signed_encoding(value as int).len(),
            Err(_) => false,
        },
{
    leb128::write::signed(out, value)
}

/// Calls `hex::encode_upper`.
///
/// The crate writes two characters for each byte, in order: the digit of the
/// upper four bits, then the digit of the lower four, both taken from
/// `0123456789ABCDEF`.
#[verifier::external_body]
fn hex_encode_upper(bytes: &Vec<u8>) -> (r: String)
    ensures
        r@ == upper_hex(bytes@),
{
    hex::encode_upper(bytes)
}

/// Calls `hex::decode`.
///
/// The crate works on the text's bytes. It fails when their number is odd
/// and when one of them is no hexadecimal digit, in either case of the
/// letters; otherwise each pair of digits gives one byte, the first digit
/// being the upper four bits. A character outside ASCII is stored as bytes
/// that are no digits, so the same holds character by character.
#[verifier::external_body]
fn hex_decode(text: String) -> (r: Result<Vec<u8>, hex::FromHexError>)
    ensures
        match r {
            Ok(bytes) => decoded_hex(text@) == Some(bytes@),
            Err(_) => decoded_hex(text@) is None,
        },
{
    hex::decode(text)
}

/// Decodes the unsigned LEB128 number that `input` starts with.
///
/// Returns `None` when no byte of `input` ends the number, when the number
/// takes more than ten bytes, and when it does not fit in 64 bits.
pub fn to_unsigned(input: &Vec<u8>) -> (r: Option<u64>)
    ensures
        r == decoded_unsigned(input@),
{
    read_unsigned(input).ok()
}

/// Encodes `input` as unsigned LEB128, in the fewest bytes. There is always
/// a result, and it decodes to `input`.
pub fn from_unsigned(input: u64) -> (r: Option<Vec<u8>>)
    ensures
        r is Some,
        r->0@ == unsigned_encoding(input as nat),
        decoded_unsigned(r->0@) == Some(input),
{
    proof {
        lemma_unsigned_round_trip(input);
    }
    let mut writable = Vec::with_capacity(3);
    write_unsigned(&mut writable, input).ok()?;
    Some(writable)
}

/// Decodes the signed LEB128 number that `input` starts with.
///
/// Returns `None` when no byte of `input` ends the number, when the number
/// takes more than ten bytes, and when it does not fit in 64 bits.
pub fn to_signed(input: &Vec<u8>) -> (r: Option<i64>)
    ensures
        r == decoded_signed(input@),
{
    read_signed(input).ok()
}

/// Encodes `input` as signed LEB128, in the fewest bytes. There is always a
/// result, and it decodes to `input`.
pub fn from_signed(input: i64) -> (r: Option<Vec<u8>>)
    ensures
        r is Some,
        r->0@ == signed_encoding(input as int),
        decoded_signed(r->0@) == Some(input),
{
    proof {
        lemma_signed_round_trip(input);
    }
    let mut writable = Vec::with_capacity(3);
    write_signed(&mut writable, input).ok()?;
    Some(writable)
}

/// Writes `input` as hexadecimal text in upper case, two digits for each
/// byte. There is always a result, and it decodes to `input`.
pub fn to_hex(input: &Vec<u8>) -> (r: Option<String>)
    ensures
        r is Some,
        r->0@ == upper_hex(input@),
        r->0@.len() == 2 * input@.len(),
        forall|i: int| 0 <= i < r->0@.len() ==> is_upper_digit(#[trigger] r->0@[i]),
        decoded_hex(r->0@) == Some(input@),
{
    proof {
        lemma_upper_hex_shape(input@);
        lemma_hex_round_trip(input@);
    }
    Some(hex_encode_upper(input))
}

/// Reads hexadecimal text, with the letters in either case.
///
/// Returns `None` when the number of characters is odd and when a character
/// is no hexadecimal digit.
pub fn from_hex(input: String) -> (r: Option<Vec<u8>>)
    ensures
        match r {
            Some(bytes) => decoded_hex(input@) == Some(bytes@),
            None => decoded_hex(input@) is None,
        },
{
    hex_decode(input).ok()
}

} // verus!
