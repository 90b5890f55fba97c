use bdf_parser::error::BdfError;
use bdf_parser::parse_helpers::{
    chunk_fixed_width, chunk_i64, chunk_little_endian, chunk_string, chunk_u64, string_from,
};

#[test]
fn chunks_are_cut_in_order() {
    let data = [1u8, 2, 3, 4, 5, 6];
    let chunks = chunk_fixed_width(&data, 2).unwrap();
    assert_eq!(chunks, vec![&data[0..2], &data[2..4], &data[4..6]]);
    assert_eq!(chunk_fixed_width(&data, 6).unwrap(), vec![&data[..]]);
    assert!(chunk_fixed_width(&[], 3).unwrap().is_empty());
}

#[test]
fn chunks_need_a_width_that_divides() {
    let data = [1u8, 2, 3, 4, 5];
    assert_eq!(chunk_fixed_width(&data, 2), Err(BdfError::InvalidLength));
    assert_eq!(chunk_fixed_width(&data, 0), Err(BdfError::InvalidLength));
    assert_eq!(chunk_fixed_width(&[], 0), Err(BdfError::InvalidLength));
    assert_eq!(chunk_fixed_width(&data, 6), Err(BdfError::InvalidLength));
}

#[test]
fn string_from_trims_both_ends_only() {
    assert_eq!(string_from(b"  Fp1   "), Ok(String::from("Fp1")));
    assert_eq!(string_from(b" HP:DC; LP:410 "), Ok(String::from("HP:DC; LP:410")));
    assert_eq!(string_from(b""), Ok(String::new()));
    assert_eq!(string_from(&[b'a', 0x80]), Err(BdfError::EncodingError));
}

#[test]
fn string_from_is_idempotent() {
    for bytes in [&b"  a b  "[..], b"x", b"   ", b"\tuV\n", "\u{a0}\u{b5}V ".as_bytes()] {
        let once = string_from(bytes).unwrap();
        let twice = string_from(once.as_bytes()).unwrap();
        assert_eq!(once, twice);
    }
}

#[test]
fn chunk_string_decodes_each_field() {
    let texts = chunk_string(b"Fp1 Fp2  Cz ", 4).unwrap();
    assert_eq!(texts, vec!["Fp1", "Fp2", "Cz"]);
    assert_eq!(chunk_string(b"abcde", 4), Err(BdfError::InvalidLength));
    assert_eq!(chunk_string(b"abcd", 0), Err(BdfError::InvalidLength));
    assert_eq!(chunk_string(&[b'a', b'b', 0xff, b'c'], 2), Err(BdfError::EncodingError));
}

#[test]
fn chunk_i64_decodes_each_field() {
    assert_eq!(chunk_i64(b"-262144 262143  +7      ", 8), Ok(vec![-262144, 262143, 7]));
    assert_eq!(chunk_i64(b"12  1.5 ", 4), Err(BdfError::MalformedField));
    assert_eq!(chunk_i64(b"        ", 8), Err(BdfError::MalformedField));
    assert_eq!(chunk_i64(b"12345", 4), Err(BdfError::InvalidLength));
}

#[test]
fn chunk_i64_reports_the_first_failure() {
    let mut bytes = b"12  ".to_vec();
    bytes.extend_from_slice(&[0xff, b' ', b' ', b' ']);
    bytes.extend_from_slice(b"x   ");
    assert_eq!(chunk_i64(&bytes, 4), Err(BdfError::EncodingError));
    let mut bytes = b"x   ".to_vec();
    bytes.extend_from_slice(&[0xff, b' ', b' ', b' ']);
    assert_eq!(chunk_i64(&bytes, 4), Err(BdfError::MalformedField));
}

#[test]
fn chunk_u64_takes_no_minus() {
    assert_eq!(chunk_u64(b"2048    16384   ", 8), Ok(vec![2048, 16384]));
    assert_eq!(chunk_u64(b"-1      ", 8), Err(BdfError::MalformedField));
    assert_eq!(
        chunk_u64(b"18446744073709551615", 20),
        Ok(vec![18446744073709551615])
    );
    assert_eq!(chunk_u64(b"18446744073709551616", 20), Err(BdfError::MalformedField));
}

#[test]
fn chunk_little_endian_decodes_samples() {
    let bytes = [0x01, 0x00, 0x00, 0xff, 0xff, 0xff, 0x00, 0x00, 0x80, 0x56, 0x34, 0x12];
    assert_eq!(chunk_little_endian(&bytes, 3), Ok(vec![1, -1, -8_388_608, 0x123456]));
    assert_eq!(chunk_little_endian(&[], 3), Ok(vec![]));
}

#[test]
fn chunk_little_endian_needs_whole_samples() {
    assert_eq!(chunk_little_endian(&[1, 2, 3, 4], 3), Err(BdfError::InvalidLength));
    assert_eq!(chunk_little_endian(&[1, 2, 3, 4], 4), Err(BdfError::InvalidLength));
    assert_eq!(chunk_little_endian(&[1, 2, 3, 4], 2), Err(BdfError::InvalidLength));
    assert_eq!(chunk_little_endian(&[1, 2, 3], 0), Err(BdfError::InvalidLength));
    assert_eq!(chunk_little_endian(&[], 4), Ok(vec![]));
}
