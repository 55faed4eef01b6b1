//! What holds of LEB128 decoding and encoding, proved from their definitions.

use crate::leb::{
    continues, decoded_signed, decoded_unsigned, frame_len, group, signed_encoding, signed_value,
    unsigned_encoding, unsigned_value,
};
use vstd::prelude::*;

verus! {

/// The weight of the group at index `k`.
spec fn pow128(k: nat) -> nat
    decreases k,
{
    if k == 0 {
        1
    } else {
        128 * pow128((k - 1) as nat)
    }
}

/// A frame with nothing behind it.
spec fn is_frame(bytes: Seq<u8>) -> bool {
    frame_len(bytes) == Some(bytes.len())
}

/// A frame ends at the first byte whose high bit is clear: that byte is its
/// last, and every byte before it announces another. There is no frame
/// exactly when every byte announces another.
pub proof fn lemma_frame_shape(bytes: Seq<u8>)
    ensures
        match frame_len(bytes) {
            Some(n) => {
                &&& 1 <= n <= bytes.len()
                &&& !continues(bytes[n - 1])
                &&& forall|i: int| 0 <= i < n - 1 ==> continues(#[trigger] bytes[i])
            },
            None => forall|i: int| 0 <= i < bytes.len() ==> continues(#[trigger] bytes[i]),
        },
    decreases bytes.len(),
{
    if bytes.len() > 0 && continues(bytes[0]) {
        let rest = bytes.drop_first();
        lemma_frame_shape(rest);
        match frame_len(rest) {
            Some(n) => {
                assert forall|i: int| 0 <= i < n implies continues(#[trigger] bytes[i]) by {
                    if i > 0 {
                        assert(bytes[i] == rest[i - 1]);
                    }
                }
            },
            None => {
                assert forall|i: int| 0 <= i < bytes.len() implies continues(
                    #[trigger] bytes[i],
                ) by {
                    if i > 0 {
                        assert(bytes[i] == rest[i - 1]);
                    }
                }
            },
        }
    }
}

/// The frame that a sequence starts with is a frame by itself.
proof fn lemma_frame_of_prefix(bytes: Seq<u8>)
    requires
        frame_len(bytes) is Some,
    ensures
        is_frame(bytes.take(frame_len(bytes)->0 as int)),
    decreases bytes.len(),
{
    lemma_frame_shape(bytes);
    let n = frame_len(bytes)->0;
    let frame = bytes.take(n as int);
    if continues(bytes[0]) {
        let rest = bytes.drop_first();
        lemma_frame_of_prefix(rest);
        assert(frame.drop_first() =~= rest.take(n - 1));
    }
}

/// Bytes behind the first frame do not count: decoding goes by the frame
/// alone.
pub proof fn lemma_tail_is_ignored(bytes: Seq<u8>, tail: Seq<u8>)
    requires
        frame_len(bytes) is Some,
    ensures
        frame_len(bytes + tail) == frame_len(bytes),
        decoded_unsigned(bytes + tail) == decoded_unsigned(bytes),
        decoded_signed(bytes + tail) == decoded_signed(bytes),
    decreases bytes.len(),
{
    let n = frame_len(bytes)->0;
    lemma_frame_shape(bytes);
    if continues(bytes[0]) {
        lemma_tail_is_ignored(bytes.drop_first(), tail);
        assert((bytes + tail).drop_first() =~= bytes.drop_first() + tail);
    }
    assert((bytes + tail).take(n as int) =~= bytes.take(n as int));
}

/// Ten groups hold seventy bits, nine hold sixty-three.
proof fn lemma_pow128_values()
    ensures
        pow128(1) == 128,
        pow128(9) == 0x8000_0000_0000_0000,
        pow128(10) == 0x40_0000_0000_0000_0000,
{
    reveal_with_fuel(pow128, 11);
}

/// The weights grow with the index.
proof fn lemma_pow128_increases(a: nat, b: nat)
    requires
        a <= b,
    ensures
        1 <= pow128(a) <= pow128(b),
    decreases b,
{
    if a < b {
        lemma_pow128_increases(a, (b - 1) as nat);
    } else if a > 0 {
        lemma_pow128_increases((a - 1) as nat, (a - 1) as nat);
    }
}

/// A sequence of `n` groups spells a number below `128^n`.
proof fn lemma_unsigned_value_bound(frame: Seq<u8>)
    ensures
        unsigned_value(frame) < pow128(frame.len()),
    decreases frame.len(),
{
    if frame.len() > 0 {
        lemma_unsigned_value_bound(frame.drop_first());
    }
}

/// A number below `128^k` is encoded in at most `k` bytes.
proof fn lemma_unsigned_encoding_len(value: nat, k: nat)
    requires
        k >= 1,
        value < pow128(k),
    ensures
        1 <= unsigned_encoding(value).len() <= k,
    decreases value,
{
    if value >= 128 {
        if k == 1 {
            assert(pow128(1) == 128);
        } else {
            lemma_unsigned_encoding_len(value / 128, (k - 1) as nat);
        }
    }
}

/// The encoding of a number is a frame that spells the number.
proof fn lemma_unsigned_encoding_value(value: nat)
    ensures
        is_frame(unsigned_encoding(value)),
        unsigned_value(unsigned_encoding(value)) == value,
    decreases value,
{
    let enc = unsigned_encoding(value);
    if value < 128 {
        assert(unsigned_value(enc.drop_first()) == 0);
    } else {
        let rest = unsigned_encoding(value / 128);
        lemma_unsigned_encoding_value(value / 128);
        assert(enc.drop_first() =~= rest);
    }
}

/// A frame that is as short as the encoding of its value is that encoding.
proof fn lemma_unsigned_frame_unique(frame: Seq<u8>)
    requires
        is_frame(frame),
        frame.len() == unsigned_encoding(unsigned_value(frame)).len(),
    ensures
        frame == unsigned_encoding(unsigned_value(frame)),
    decreases frame.len(),
{
    let value = unsigned_value(frame);
    let rest = frame.drop_first();
    if frame.len() == 1 {
        assert(unsigned_value(rest) == 0);
        assert(frame =~= unsigned_encoding(value));
    } else {
        assert(value / 128 == unsigned_value(rest));
        lemma_unsigned_frame_unique(rest);
        assert(frame =~= seq![frame[0]] + rest);
    }
}

/// Decoding the canonical encoding of an unsigned number gives the number
/// back.
pub proof fn lemma_unsigned_round_trip(value: u64)
    ensures
        decoded_unsigned(unsigned_encoding(value as nat)) == Some(value),
{
    let enc = unsigned_encoding(value as nat);
    lemma_unsigned_encoding_value(value as nat);
    lemma_pow128_values();
    lemma_unsigned_encoding_len(value as nat, 10);
    assert(enc.take(enc.len() as int) =~= enc);
}

/// A canonical encoding of an unsigned number decodes, and encoding what it
/// decodes to gives the same bytes again.
pub proof fn lemma_unsigned_canonical_reencodes(bytes: Seq<u8>, value: u64)
    requires
        bytes == unsigned_encoding(value as nat),
    ensures
        decoded_unsigned(bytes) is Some,
        unsigned_encoding(decoded_unsigned(bytes)->0 as nat) == bytes,
{
    lemma_unsigned_round_trip(value);
}

/// The canonical encoding of an unsigned number is its shortest encoding and
/// the only one of that length: whatever decodes to the number starts with a
/// frame that is at least as long, and a frame of the same length is the
/// canonical encoding itself.
pub proof fn lemma_unsigned_encoding_shortest(bytes: Seq<u8>, value: u64)
    requires
        decoded_unsigned(bytes) == Some(value),
    ensures
        unsigned_encoding(value as nat).len() <= frame_len(bytes)->0 <= bytes.len(),
        frame_len(bytes)->0 == unsigned_encoding(value as nat).len() ==> bytes.take(
            frame_len(bytes)->0 as int,
        ) == unsigned_encoding(value as nat),
        bytes.len() == unsigned_encoding(value as nat).len() ==> bytes == unsigned_encoding(
            value as nat,
        ),
{
    let n = frame_len(bytes)->0;
    let frame = bytes.take(n as int);
    lemma_frame_shape(bytes);
    lemma_frame_of_prefix(bytes);
    lemma_unsigned_value_bound(frame);
    lemma_unsigned_encoding_len(value as nat, n);
    if n == unsigned_encoding(value as nat).len() {
        lemma_unsigned_frame_unique(frame);
    }
}

/// A sequence of `n` groups, `n` at least one, spells in two's complement a
/// number of `7n` bits.
proof fn lemma_signed_value_bound(frame: Seq<u8>)
    requires
        frame.len() >= 1,
    ensures
        -64 * pow128((frame.len() - 1) as nat) <= signed_value(frame) < 64 * pow128(
            (frame.len() - 1) as nat,
        ),
    decreases frame.len(),
{
    if frame.len() > 1 {
        lemma_signed_value_bound(frame.drop_first());
    }
}

/// A number of `7k` bits in two's complement is encoded in at most `k` bytes.
proof fn lemma_signed_encoding_len(value: int, k: nat)
    requires
        k >= 1,
        -64 * pow128((k - 1) as nat) <= value < 64 * pow128((k - 1) as nat),
    ensures
        1 <= signed_encoding(value).len() <= k,
    decreases k,
{
    if !(-64 <= value < 64) {
        lemma_signed_encoding_len(value / 128, (k - 1) as nat);
    }
}

/// The encoding of a signed number is a frame that spells the number.
proof fn lemma_signed_encoding_value(value: int)
    ensures
        is_frame(signed_encoding(value)),
        signed_value(signed_encoding(value)) == value,
    decreases (if value < 0 { -value } else { value }),
{
    let enc = signed_encoding(value);
    if !(-64 <= value < 64) {
        let rest = signed_encoding(value / 128);
        lemma_signed_encoding_value(value / 128);
        assert(enc.drop_first() =~= rest);
    }
}

/// A frame that is as short as the encoding of its signed value is that
/// encoding.
proof fn lemma_signed_frame_unique(frame: Seq<u8>)
    requires
        is_frame(frame),
        frame.len() == signed_encoding(signed_value(frame)).len(),
    ensures
        frame == signed_encoding(signed_value(frame)),
    decreases frame.len(),
{
    let value = signed_value(frame);
    let rest = frame.drop_first();
    if frame.len() == 1 {
        assert(frame =~= signed_encoding(value));
    } else {
        lemma_signed_value_bound(rest);
        assert(value / 128 == signed_value(rest));
        lemma_signed_frame_unique(rest);
        assert(frame =~= seq![frame[0]] + rest);
    }
}

/// Decoding the canonical encoding of a signed number gives the number back.
pub proof fn lemma_signed_round_trip(value: i64)
    ensures
        decoded_signed(signed_encoding(value as int)) == Some(value),
{
    let enc = signed_encoding(value as int);
    lemma_signed_encoding_value(value as int);
    lemma_pow128_values();
    lemma_signed_encoding_len(value as int, 10);
    assert(enc.take(enc.len() as int) =~= enc);
}

/// A canonical encoding of a signed number decodes, and encoding what it
/// decodes to gives the same bytes again.
pub proof fn lemma_signed_canonical_reencodes(bytes: Seq<u8>, value: i64)
    requires
        bytes == signed_encoding(value as int),
    ensures
        decoded_signed(bytes) is Some,
        signed_encoding(decoded_signed(bytes)->0 as int) == bytes,
{
    lemma_signed_round_trip(value);
}

/// The canonical encoding of a signed number is its shortest encoding and the
/// only one of that length: whatever decodes to the number starts with a
/// frame that is at least as long, and a frame of the same length is the
/// canonical encoding itself.
pub proof fn lemma_signed_encoding_shortest(bytes: Seq<u8>, value: i64)
    requires
        decoded_signed(bytes) == Some(value),
    ensures
        signed_encoding(value as int).len() <= frame_len(bytes)->0 <= bytes.len(),
        frame_len(bytes)->0 == signed_encoding(value as int).len() ==> bytes.take(
            frame_len(bytes)->0 as int,
        ) == signed_encoding(value as int),
        bytes.len() == signed_encoding(value as int).len() ==> bytes == signed_encoding(
            value as int,
        ),
{
    let n = frame_len(bytes)->0;
    let frame = bytes.take(n as int);
    lemma_frame_shape(bytes);
    lemma_frame_of_prefix(bytes);
    lemma_signed_value_bound(frame);
    lemma_signed_encoding_len(value as int, n);
    if n == signed_encoding(value as int).len() {
        lemma_signed_frame_unique(frame);
    }
}

/// The last group of a sequence counts with the weight of its index, as an
/// unsigned digit in the unsigned value and as a signed digit in the signed
/// value.
proof fn lemma_last_group(frame: Seq<u8>)
    requires
        frame.len() >= 1,
    ensures
        unsigned_value(frame) == unsigned_value(frame.drop_last()) + pow128(
            (frame.len() - 1) as nat,
        ) * group(frame.last()),
        signed_value(frame) == unsigned_value(frame.drop_last()) + pow128(
            (frame.len() - 1) as nat,
        ) * (if group(frame.last()) >= 64 {
            group(frame.last()) - 128
        } else {
            group(frame.last()) as int
        }),
    decreases frame.len(),
{
    let rest = frame.drop_first();
    let head = frame.drop_last();
    let g = group(frame.last()) as int;
    let s = if g >= 64 {
        g - 128
    } else {
        g
    };
    let w = pow128((frame.len() - 1) as nat) as int;
    if frame.len() == 1 {
        assert(unsigned_value(rest) == 0);
        assert(w * g == g && w * s == s) by (nonlinear_arith)
            requires
                w == 1,
        ;
    } else {
        lemma_last_group(rest);
        assert(head.drop_first() =~= rest.drop_last());
        let p = pow128((frame.len() - 2) as nat) as int;
        assert(w * g == 128 * (p * g) && w * s == 128 * (p * s)) by (nonlinear_arith)
            requires
                w == 128 * p,
        ;
    }
}

/// Where the unsigned decoding draws the line: a frame of up to nine bytes
/// always decodes, one of ten bytes only with `0x00` or `0x01` as its last
/// byte, a longer one never.
pub proof fn lemma_unsigned_overflow_boundary(bytes: Seq<u8>)
    ensures
        decoded_unsigned(bytes) is Some <==> match frame_len(bytes) {
            Some(n) => n <= 9 || (n == 10 && bytes[9] <= 1),
            None => false,
        },
{
    if let Some(n) = frame_len(bytes) {
        let frame = bytes.take(n as int);
        lemma_frame_shape(bytes);
        lemma_pow128_values();
        if n <= 9 {
            lemma_unsigned_value_bound(frame);
            lemma_pow128_increases(n, 9);
        } else if n == 10 {
            lemma_last_group(frame);
            lemma_unsigned_value_bound(frame.drop_last());
        }
    }
}

/// Where the signed decoding draws the line: a frame of up to nine bytes
/// always decodes, one of ten bytes only with `0x00` or `0x7f` as its last
/// byte, a longer one never.
pub proof fn lemma_signed_overflow_boundary(bytes: Seq<u8>)
    ensures
        decoded_signed(bytes) is Some <==> match frame_len(bytes) {
            Some(n) => n <= 9 || (n == 10 && (bytes[9] == 0x00 || bytes[9] == 0x7f)),
            None => false,
        },
{
    if let Some(n) = frame_len(bytes) {
        let frame = bytes.take(n as int);
        lemma_frame_shape(bytes);
        lemma_pow128_values();
        if n <= 9 {
            lemma_signed_value_bound(frame);
            lemma_pow128_increases((n - 1) as nat, 8);
        } else if n == 10 {
            lemma_last_group(frame);
            lemma_unsigned_value_bound(frame.drop_last());
        }
    }
}

} // verus!
