//! The meaning of LEB128 byte sequences.
//!
//! A number is stored as groups of seven bits, least significant group first,
//! one group per byte. The high bit of a byte says that another byte follows.
//! The bytes up to and including the first one whose high bit is clear form a
//! frame; whatever follows the frame is not part of the number.

use vstd::prelude::*;

verus! {

/// The largest number of bytes that a frame of a 64-bit number may have.
pub const MAX_FRAME_LEN: usize = 10;

/// The seven payload bits of a byte.
pub open spec fn group(byte: u8) -> nat {
    (byte % 128) as nat
}

/// Whether the high bit of a byte announces another byte.
pub open spec fn continues(byte: u8) -> bool {
    byte >= 128
}

/// The length of the frame that `bytes` starts with: one more than the index
/// of the first byte whose high bit is clear. `None` when every byte announces
/// another one, which includes the empty sequence.
pub open spec fn frame_len(bytes: Seq<u8>) -> Option<nat>
    decreases bytes.len(),
{
    if bytes.len() == 0 {
        None
    } else if !continues(bytes[0]) {
        Some(1nat)
    } else {
        match frame_len(bytes.drop_first()) {
            Some(n) => Some(n + 1),
            None => None,
        }
    }
}

/// The number that the groups of `frame` spell when read as an unsigned
/// number in base 128, least significant group first.
pub open spec fn unsigned_value(frame: Seq<u8>) -> nat
    decreases frame.len(),
{
    if frame.len() == 0 {
        0
    } else {
        group(frame[0]) + 128 * unsigned_value(frame.drop_first())
    }
}

/// The number that the groups of `frame` spell when read in two's complement:
/// the top bit of the last group is the sign and stands for all higher bits.
pub open spec fn signed_value(frame: Seq<u8>) -> int
    decreases frame.len(),
{
    if frame.len() == 0 {
        0
    } else if frame.len() == 1 {
        if group(frame[0]) >= 64 {
            group(frame[0]) - 128
        } else {
            group(frame[0]) as int
        }
    } else {
        group(frame[0]) + 128 * signed_value(frame.drop_first())
    }
}

/// What a byte sequence decodes to as an unsigned 64-bit number: the value of
/// its first frame, provided that there is a frame, that it has at most ten
/// bytes and that its value fits in 64 bits.
pub open spec fn decoded_unsigned(bytes: Seq<u8>) -> Option<u64> {
    match frame_len(bytes) {
        Some(n) => if n <= MAX_FRAME_LEN && unsigned_value(bytes.take(n as int)) <= u64::MAX {
            Some(unsigned_value(bytes.take(n as int)) as u64)
        } else {
            None
        },
        None => None,
    }
}

/// What a byte sequence decodes to as a signed 64-bit number: the two's
/// complement value of its first frame, provided that there is a frame, that
/// it has at most ten bytes and that its value fits in 64 bits.
pub open spec fn decoded_signed(bytes: Seq<u8>) -> Option<i64> {
    match frame_len(bytes) {
        Some(n) => if n <= MAX_FRAME_LEN && i64::MIN <= signed_value(bytes.take(n as int))
            <= i64::MAX {
            Some(signed_value(bytes.take(n as int)) as i64)
        } else {
            None
        },
        None => None,
    }
}

/// The canonical encoding of an unsigned number: its base-128 digits, least
/// significant first, each but the last with the high bit set.
pub open spec fn unsigned_encoding(value: nat) -> Seq<u8>
    decreases value,
{
    if value < 128 {
        seq![value as u8]
    } else {
        seq![(value % 128 + 128) as u8] + unsigned_encoding(value / 128)
    }
}

/// The canonical encoding of a signed number: its two's complement digits in
/// base 128, least significant first, ending with the first digit whose top
/// bit already is the sign of all that remains; each digit but the last has
/// the high bit of its byte set.
pub open spec fn signed_encoding(value: int) -> Seq<u8>
    decreases (if value < 0 { -value } else { value }),
{
    if -64 <= value < 64 {
        seq![(value % 128) as u8]
    } else {
        seq![(value % 128 + 128) as u8] + signed_encoding(value / 128)
    }
}

} // verus!
