use krdiff::utils::error::DiffError;
use krdiff::utils::varint::decode_varint;
use krdiff::utils::varint::VarInt;

fn round_trip(value: i64, k: u8) {
    let mut bytes = VarInt::encode(value, k);
    let len = bytes.len();
    bytes.extend_from_slice(&[0xAA, 0x55]);
    assert_eq!(decode_varint(&bytes, 0, k), Ok((VarInt(value), len)));
}

#[test]
fn encodes_small_values_in_one_byte() {
    assert_eq!(VarInt::encode(0, 0), vec![0x00]);
    assert_eq!(VarInt::encode(127, 0), vec![0x7f]);
    assert_eq!(VarInt::encode(63, 1), vec![0x3f]);
    assert_eq!(VarInt::encode(-1, 1), vec![0x81]);
    assert_eq!(VarInt::encode(-63, 1), vec![0xbf]);
}

#[test]
fn encodes_larger_values_most_significant_first() {
    assert_eq!(VarInt::encode(128, 0), vec![0x81, 0x00]);
    assert_eq!(VarInt::encode(300, 0), vec![0x82, 0x2c]);
    assert_eq!(VarInt::encode(64, 1), vec![0x40, 0x40]);
    assert_eq!(VarInt::encode(-64, 1), vec![0xc0, 0x40]);
    assert_eq!(VarInt::encode(16384, 0), vec![0x81, 0x80, 0x00]);
}

#[test]
fn encodes_the_largest_value_in_nine_bytes() {
    assert_eq!(
        VarInt::encode(i64::MAX, 0),
        vec![0xff, 0xff, 0xff, 0xff, 0xff, 0xff, 0xff, 0xff, 0x7f]
    );
}

#[test]
fn decodes_known_bytes() {
    assert_eq!(decode_varint(&[0x05], 0, 0), Ok((VarInt(5), 1)));
    assert_eq!(decode_varint(&[0x82, 0x2c], 0, 0), Ok((VarInt(300), 2)));
    assert_eq!(decode_varint(&[0x85], 0, 1), Ok((VarInt(-5), 1)));
    assert_eq!(decode_varint(&[0xc0, 0x40], 0, 1), Ok((VarInt(-64), 2)));
    assert_eq!(decode_varint(&[0x00, 0x82, 0x2c, 0x09], 1, 0), Ok((VarInt(300), 3)));
}

#[test]
fn decodes_encodings_that_are_not_the_shortest() {
    assert_eq!(decode_varint(&[0x80, 0x80, 0x07], 0, 0), Ok((VarInt(7), 3)));
    assert_eq!(decode_varint(&[0x80], 0, 1), Ok((VarInt(0), 1)));
}

#[test]
fn round_trips_without_tag_bits() {
    for value in [0, 1, 126, 127, 128, 129, 16383, 16384, 1 << 21, 1 << 35, (1 << 42) + 12345, i64::MAX] {
        round_trip(value, 0);
    }
}

#[test]
fn round_trips_with_a_sign_bit() {
    for value in [0, 1, 62, 63, 64, 65, 8191, 8192, 1 << 20, 1 << 34, (1 << 41) + 54321, i64::MAX] {
        round_trip(value, 1);
        round_trip(-value, 1);
    }
}

#[test]
fn round_trips_with_every_tag_width() {
    for k in 0..=7u8 {
        for value in [0, 1, 2, 3, 100, 1000, 123456789, i64::MAX] {
            round_trip(value, k);
            if k > 0 {
                round_trip(-value, k);
            }
        }
    }
}

#[test]
fn a_value_of_five_continuation_bytes_round_trips() {
    let value: i64 = 1 << 40;
    let bytes = VarInt::encode(value, 0);
    assert_eq!(bytes.len(), 6);
    assert_eq!(decode_varint(&bytes, 0, 0), Ok((VarInt(value), 6)));
}

#[test]
fn truncated_integer_is_end_of_input() {
    assert_eq!(decode_varint(&[], 0, 0), Err(DiffError::UnexpectedEof));
    assert_eq!(decode_varint(&[0x81], 0, 0), Err(DiffError::UnexpectedEof));
    assert_eq!(decode_varint(&[0x81, 0x80, 0x80], 0, 0), Err(DiffError::UnexpectedEof));
    assert_eq!(decode_varint(&[0x05], 1, 0), Err(DiffError::UnexpectedEof));
    assert_eq!(decode_varint(&[0x05], 7, 0), Err(DiffError::UnexpectedEof));
}

#[test]
fn integer_beyond_63_bits_overflows() {
    let bytes = [0xff, 0xff, 0xff, 0xff, 0xff, 0xff, 0xff, 0xff, 0xff, 0x7f];
    assert_eq!(decode_varint(&bytes, 0, 0), Err(DiffError::VarIntOverflow));
    let just_over = [0x81, 0x80, 0x80, 0x80, 0x80, 0x80, 0x80, 0x80, 0x80, 0x00];
    assert_eq!(decode_varint(&just_over, 0, 0), Err(DiffError::VarIntOverflow));
}

#[test]
fn overlong_integer_cut_short_is_end_of_input() {
    let bytes = [0xff, 0xff, 0xff, 0xff, 0xff, 0xff, 0xff, 0xff, 0xff, 0xff];
    assert_eq!(decode_varint(&bytes, 0, 0), Err(DiffError::UnexpectedEof));
}

#[test]
fn sign_bit_is_a_continuation_flag_without_tag_bits() {
    assert_eq!(decode_varint(&[0x85, 0x00], 0, 0), Ok((VarInt(5 * 128), 2)));
    assert_eq!(decode_varint(&[0x45], 0, 0), Ok((VarInt(0x45), 1)));
    assert_eq!(decode_varint(&[0x45], 0, 1), Err(DiffError::UnexpectedEof));
    assert_eq!(decode_varint(&[0x45, 0x01], 0, 1), Ok((VarInt(5 * 128 + 1), 2)));
}
