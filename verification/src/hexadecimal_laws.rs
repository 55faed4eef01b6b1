//! What holds of hexadecimal text, proved from its definitions.

use crate::hexadecimal::{
    ascii_lower, ascii_upper, byte_of, decoded_hex, digit_value, is_hex, is_upper_digit,
    same_but_for_case, upper_digit, upper_hex,
};
use vstd::prelude::*;

verus! {

/// Decoding the text of a byte sequence gives the bytes back.
pub proof fn lemma_hex_round_trip(bytes: Seq<u8>)
    ensures
        decoded_hex(upper_hex(bytes)) == Some(bytes),
{
    let text = upper_hex(bytes);
    assert forall|i: int| 0 <= i < text.len() implies (#[trigger] digit_value(text[i])) is Some by {
        let b = bytes[i / 2];
        assert(b / 16 < 16 && b % 16 < 16);
    }
    assert forall|i: int| 0 <= i < bytes.len() implies byte_of(text[2 * i], text[2 * i + 1])
        == bytes[i] by {
        let b = bytes[i];
        assert(text[2 * i] == upper_digit((b / 16) as nat));
        assert(text[2 * i + 1] == upper_digit((b % 16) as nat));
    }
    assert(decoded_hex(text)->0 =~= bytes);
}

/// The text of a byte sequence has two characters for each byte, all of them
/// digits in upper case.
pub proof fn lemma_upper_hex_shape(bytes: Seq<u8>)
    ensures
        upper_hex(bytes).len() == 2 * bytes.len(),
        forall|i: int| 0 <= i < 2 * bytes.len() ==> is_upper_digit(#[trigger] upper_hex(bytes)[i]),
{
    assert forall|i: int| 0 <= i < 2 * bytes.len() implies is_upper_digit(
        #[trigger] upper_hex(bytes)[i],
    ) by {
        let b = bytes[i / 2];
        assert(b / 16 < 16 && b % 16 < 16);
    }
}

/// The case of the letters does not matter to decoding: texts that differ in
/// nothing else decode alike.
pub proof fn lemma_hex_case_insensitive(a: Seq<char>, b: Seq<char>)
    requires
        same_but_for_case(a, b),
    ensures
        decoded_hex(a) == decoded_hex(b),
{
    assert forall|i: int| 0 <= i < a.len() implies digit_value(a[i]) == digit_value(b[i]) by {
        assert(ascii_lower(a[i]) == ascii_lower(b[i]));
    }
    assert(is_hex(a) == is_hex(b));
    if is_hex(a) {
        assert(decoded_hex(a)->0 =~= decoded_hex(b)->0);
    }
}

/// Writing decoded text again gives the text in upper case.
pub proof fn lemma_hex_rewritten(text: Seq<char>)
    requires
        is_hex(text),
    ensures
        upper_hex(decoded_hex(text)->0) == text.map_values(|c: char| ascii_upper(c)),
{
    let bytes = decoded_hex(text)->0;
    let upper = text.map_values(|c: char| ascii_upper(c));
    assert forall|i: int| 0 <= i < text.len() implies upper_hex(bytes)[i] == upper[i] by {
        let k = i / 2;
        assert(digit_value(text[2 * k]) is Some && digit_value(text[2 * k + 1]) is Some);
        assert(bytes[k] == byte_of(text[2 * k], text[2 * k + 1]));
    }
    assert(upper_hex(bytes) =~= upper);
}

} // verus!
