//! The meaning of hexadecimal text.
//!
//! A byte is written as two digits, the digit of its upper four bits first.
//! Text is read with the letters in either case and written in upper case.

use vstd::prelude::*;

verus! {

/// The upper-case digit that stands for `n`, for `n` below 16.
pub open spec fn upper_digit(n: nat) -> char {
    if n < 10 {
        ('0' as u8 + n) as u8 as char
    } else {
        ('A' as u8 + n - 10) as u8 as char
    }
}

/// The number that a hexadecimal digit stands for, in either case of the
/// letters; `None` for every other character.
pub open spec fn digit_value(c: char) -> Option<nat> {
    if '0' <= c <= '9' {
        Some((c as u32 - '0' as u32) as nat)
    } else if 'A' <= c <= 'F' {
        Some((c as u32 - 'A' as u32 + 10) as nat)
    } else if 'a' <= c <= 'f' {
        Some((c as u32 - 'a' as u32 + 10) as nat)
    } else {
        None
    }
}

/// Whether `c` is a digit as `upper_digit` writes them.
pub open spec fn is_upper_digit(c: char) -> bool {
    '0' <= c <= '9' || 'A' <= c <= 'F'
}

/// The upper-case hexadecimal text of a byte sequence.
pub open spec fn upper_hex(bytes: Seq<u8>) -> Seq<char> {
    Seq::new(
        2 * bytes.len(),
        |i: int|
            if i % 2 == 0 {
                upper_digit((bytes[i / 2] / 16) as nat)
            } else {
                upper_digit((bytes[i / 2] % 16) as nat)
            },
    )
}

/// Whether `text` is hexadecimal text: an even number of characters, each of
/// them a hexadecimal digit.
pub open spec fn is_hex(text: Seq<char>) -> bool {
    &&& text.len() % 2 == 0
    &&& forall|i: int| 0 <= i < text.len() ==> (#[trigger] digit_value(text[i])) is Some
}

/// The byte that two digits spell, the first digit being the upper half.
pub open spec fn byte_of(high: char, low: char) -> u8 {
    (16 * digit_value(high).unwrap() + digit_value(low).unwrap()) as u8
}

/// What text decodes to: one byte for each pair of digits, in order; `None`
/// unless `text` is hexadecimal text.
pub open spec fn decoded_hex(text: Seq<char>) -> Option<Seq<u8>> {
    if is_hex(text) {
        Some(Seq::new(text.len() / 2, |i: int| byte_of(text[2 * i], text[2 * i + 1])))
    } else {
        None
    }
}

/// The lower-case form of an ASCII letter; any other character is left as it
/// is.
pub open spec fn ascii_lower(c: char) -> char {
    if 'A' <= c <= 'Z' {
        (c as u8 + 32) as u8 as char
    } else {
        c
    }
}

/// The upper-case form of an ASCII letter; any other character is left as it
/// is.
pub open spec fn ascii_upper(c: char) -> char {
    if 'a' <= c <= 'z' {
        (c as u8 - 32) as u8 as char
    } else {
        c
    }
}

/// Whether two texts are the same but for the case of their ASCII letters.
pub open spec fn same_but_for_case(a: Seq<char>, b: Seq<char>) -> bool {
    &&& a.len() == b.len()
    &&& forall|i: int| 0 <= i < a.len() ==> ascii_lower(#[trigger] a[i]) == ascii_lower(b[i])
}

} // verus!
