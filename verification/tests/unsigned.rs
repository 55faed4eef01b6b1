use lebanon::convert::{from_unsigned, to_unsigned};

#[test]
fn zero_is_one_zero_byte() {
    assert_eq!(from_unsigned(0), Some(vec![0x00]));
    assert_eq!(to_unsigned(&vec![0x00]), Some(0));
}

#[test]
fn three_hundred_takes_two_bytes() {
    assert_eq!(from_unsigned(300), Some(vec![0xAC, 0x02]));
    assert_eq!(to_unsigned(&vec![0xAC, 0x02]), Some(300));
}

#[test]
fn single_byte_values() {
    assert_eq!(from_unsigned(1), Some(vec![0x01]));
    assert_eq!(from_unsigned(2), Some(vec![0x02]));
    assert_eq!(from_unsigned(127), Some(vec![0x7F]));
    assert_eq!(to_unsigned(&vec![0x7F]), Some(127));
}

#[test]
fn second_byte_starts_at_128() {
    assert_eq!(from_unsigned(128), Some(vec![0x80, 0x01]));
    assert_eq!(from_unsigned(129), Some(vec![0x81, 0x01]));
    assert_eq!(from_unsigned(16383), Some(vec![0xFF, 0x7F]));
    assert_eq!(from_unsigned(16384), Some(vec![0x80, 0x80, 0x01]));
    assert_eq!(to_unsigned(&vec![0x80, 0x01]), Some(128));
    assert_eq!(to_unsigned(&vec![0x80, 0x80, 0x01]), Some(16384));
}

#[test]
fn known_unsigned_encoding() {
    assert_eq!(from_unsigned(624485), Some(vec![0xE5, 0x8E, 0x26]));
    assert_eq!(to_unsigned(&vec![0xE5, 0x8E, 0x26]), Some(624485));
}

#[test]
fn largest_unsigned_takes_ten_bytes() {
    let bytes: Vec<u8> = vec![0xFF, 0xFF, 0xFF, 0xFF, 0xFF, 0xFF, 0xFF, 0xFF, 0xFF, 0x01];
    assert_eq!(from_unsigned(u64::MAX), Some(bytes.clone()));
    assert_eq!(to_unsigned(&bytes), Some(u64::MAX));
}

#[test]
fn empty_input_is_truncated() {
    assert_eq!(to_unsigned(&vec![]), None);
}

#[test]
fn lone_continuation_byte_is_truncated() {
    assert_eq!(to_unsigned(&vec![0x80]), None);
    assert_eq!(to_unsigned(&vec![0xFF, 0xFF, 0x80]), None);
}

#[test]
fn tenth_byte_above_one_overflows() {
    let mut bytes: Vec<u8> = vec![0xFF; 9];
    bytes.push(0x02);
    assert_eq!(to_unsigned(&bytes), None);
    let mut bytes: Vec<u8> = vec![0x80; 9];
    bytes.push(0x7F);
    assert_eq!(to_unsigned(&bytes), None);
}

#[test]
fn tenth_byte_of_zero_or_one_decodes() {
    let mut bytes: Vec<u8> = vec![0x80; 9];
    bytes.push(0x01);
    assert_eq!(to_unsigned(&bytes), Some(1u64 << 63));
    let mut bytes: Vec<u8> = vec![0x80; 9];
    bytes.push(0x00);
    assert_eq!(to_unsigned(&bytes), Some(0));
}

#[test]
fn eleven_byte_frame_overflows_whatever_its_value() {
    let mut bytes: Vec<u8> = vec![0x80; 10];
    bytes.push(0x00);
    assert_eq!(to_unsigned(&bytes), None);
    let mut bytes: Vec<u8> = vec![0x80; 9];
    bytes.push(0x81);
    bytes.push(0x00);
    assert_eq!(to_unsigned(&bytes), None);
}

#[test]
fn overlong_input_without_end_is_absent() {
    assert_eq!(to_unsigned(&vec![0xFF; 11]), None);
    assert_eq!(to_unsigned(&vec![0x80; 40]), None);
}

#[test]
fn bytes_behind_the_frame_are_ignored() {
    assert_eq!(to_unsigned(&vec![0x00, 0xFF]), Some(0));
    assert_eq!(to_unsigned(&vec![0xAC, 0x02, 0x80, 0x80]), Some(300));
}

#[test]
fn padded_encoding_decodes_and_shrinks() {
    let padded: Vec<u8> = vec![0xAC, 0x82, 0x80, 0x00];
    assert_eq!(to_unsigned(&padded), Some(300));
    assert_eq!(from_unsigned(300), Some(vec![0xAC, 0x02]));
    let padded_zero: Vec<u8> = vec![0x80, 0x00];
    assert_eq!(to_unsigned(&padded_zero), Some(0));
    assert_eq!(from_unsigned(0), Some(vec![0x00]));
}

#[test]
fn unsigned_round_trip_on_chosen_values() {
    let values: Vec<u64> = vec![
        0,
        1,
        63,
        64,
        127,
        128,
        255,
        256,
        300,
        16383,
        16384,
        2097151,
        2097152,
        u32::MAX as u64,
        (1u64 << 35) - 1,
        1u64 << 35,
        (1u64 << 56) - 1,
        1u64 << 56,
        (1u64 << 63) - 1,
        1u64 << 63,
        u64::MAX - 1,
        u64::MAX,
    ];
    for v in values {
        let bytes = from_unsigned(v).expect("every number has an encoding");
        assert_eq!(to_unsigned(&bytes), Some(v));
    }
}

#[test]
fn unsigned_round_trip_on_every_power_of_two() {
    let mut shift: u32 = 0;
    while shift < 64 {
        let v: u64 = 1u64 << shift;
        for w in [v - 1, v, v + 1] {
            let bytes = from_unsigned(w).expect("every number has an encoding");
            assert_eq!(to_unsigned(&bytes), Some(w));
        }
        shift += 1;
    }
}

#[test]
fn unsigned_encoding_length_grows_every_seven_bits() {
    let mut shift: u32 = 0;
    while shift < 64 {
        let v: u64 = 1u64 << shift;
        let bytes = from_unsigned(v).expect("every number has an encoding");
        assert_eq!(bytes.len(), (shift / 7 + 1) as usize);
        shift += 1;
    }
}

#[test]
fn unsigned_encoding_is_well_framed() {
    let values: Vec<u64> = vec![0, 127, 128, 300, 624485, u64::MAX];
    for v in values {
        let bytes = from_unsigned(v).expect("every number has an encoding");
        let last: usize = bytes.len() - 1;
        for (i, b) in bytes.iter().enumerate() {
            assert_eq!(*b >= 0x80, i < last);
        }
    }
}

#[test]
fn reencoding_a_canonical_sequence_gives_it_back() {
    let sequences: Vec<Vec<u8>> = vec![
        vec![0x00],
        vec![0x7F],
        vec![0x80, 0x01],
        vec![0xAC, 0x02],
        vec![0xE5, 0x8E, 0x26],
        vec![0xFF, 0xFF, 0xFF, 0xFF, 0xFF, 0xFF, 0xFF, 0xFF, 0xFF, 0x01],
    ];
    for bytes in sequences {
        let v = to_unsigned(&bytes).expect("a canonical sequence decodes");
        assert_eq!(from_unsigned(v), Some(bytes));
    }
}
