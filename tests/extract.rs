use serde_bench::extract::{
    extract, extract_bool, extract_i16, extract_i32, extract_i64, extract_i8, extract_remainder_as_string,
    extract_u16, extract_u32, extract_u64, extract_u8,
};
use serde_bench::wire::utf8_char_width;

#[test]
fn extract_pads_with_zeros() {
    let data = [1u8, 2, 3];
    let mut cursor: usize = 1;
    assert_eq!(extract(&data, &mut cursor, 4), vec![2, 3, 0, 0]);
    assert_eq!(cursor, 3);
    assert_eq!(extract(&data, &mut cursor, 2), vec![0, 0]);
    assert_eq!(cursor, 3);
}

#[test]
fn extract_within_bounds() {
    let data = [1u8, 2, 3, 4];
    let mut cursor: usize = 0;
    assert_eq!(extract(&data, &mut cursor, 2), vec![1, 2]);
    assert_eq!(cursor, 2);
    assert_eq!(extract(&data, &mut cursor, 2), vec![3, 4]);
    assert_eq!(cursor, 4);
}

#[test]
fn extract_fields_in_sequence() {
    let mut data: Vec<u8> = vec![0xAA];
    data.extend_from_slice(&0x1234u16.to_le_bytes());
    data.extend_from_slice(&0x1234_5678u32.to_le_bytes());
    data.extend_from_slice(&0x0102_0304_0506_0708u64.to_le_bytes());
    data.push(0xFF);
    data.extend_from_slice(&(-2i16).to_le_bytes());
    data.extend_from_slice(&(-3i32).to_le_bytes());
    data.extend_from_slice(&(-4i64).to_le_bytes());
    data.push(5);
    data.extend_from_slice(b"tail");
    let mut cursor: usize = 0;
    assert_eq!(extract_u8(&data, &mut cursor), 0xAA);
    assert_eq!(extract_u16(&data, &mut cursor), 0x1234);
    assert_eq!(extract_u32(&data, &mut cursor), 0x1234_5678);
    assert_eq!(extract_u64(&data, &mut cursor), 0x0102_0304_0506_0708);
    assert_eq!(extract_i8(&data, &mut cursor), -1);
    assert_eq!(extract_i16(&data, &mut cursor), -2);
    assert_eq!(extract_i32(&data, &mut cursor), -3);
    assert_eq!(extract_i64(&data, &mut cursor), -4);
    assert!(extract_bool(&data, &mut cursor));
    assert_eq!(extract_remainder_as_string(&data, &mut cursor), "tail");
    assert_eq!(cursor, data.len() - 4);
}

#[test]
fn extract_past_the_end_reads_zeros() {
    let data = [7u8];
    let mut cursor: usize = 0;
    assert_eq!(extract_u32(&data, &mut cursor), 7);
    assert_eq!(cursor, 1);
    assert_eq!(extract_u64(&data, &mut cursor), 0);
    assert!(!extract_bool(&data, &mut cursor));
    assert_eq!(extract_remainder_as_string(&data, &mut cursor), "");
}

#[test]
fn remainder_replaces_invalid_utf8() {
    let data = [b'a', 0xFF, b'b'];
    let mut cursor: usize = 0;
    assert_eq!(extract_remainder_as_string(&data, &mut cursor), "a\u{fffd}b");
    assert_eq!(cursor, 0);
}

#[test]
fn char_width_table() {
    assert_eq!(utf8_char_width(0x41), 1);
    assert_eq!(utf8_char_width(0x80), 0);
    assert_eq!(utf8_char_width(0xC1), 0);
    assert_eq!(utf8_char_width(0xC2), 2);
    assert_eq!(utf8_char_width(0xE0), 3);
    assert_eq!(utf8_char_width(0xF4), 4);
    assert_eq!(utf8_char_width(0xF5), 0);
}
