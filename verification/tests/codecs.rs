use bdf_parser::error::BdfError;
use bdf_parser::sample::decode_sample_24le;
use bdf_parser::text::{
    char_is_whitespace, decode_decimal_i64, decode_decimal_u64, decode_decimal_usize, decode_text,
    parse_i64, parse_u64, trim_whitespace,
};

#[test]
fn sample_decodes_little_endian() {
    assert_eq!(decode_sample_24le(&[0x01, 0x02, 0x03]), Ok(0x030201));
    assert_eq!(decode_sample_24le(&[0xff, 0xff, 0xff]), Ok(-1));
    assert_eq!(decode_sample_24le(&[0x00, 0x00, 0x80]), Ok(-8_388_608));
    assert_eq!(decode_sample_24le(&[0xff, 0xff, 0x7f]), Ok(8_388_607));
}

#[test]
fn sample_needs_three_bytes() {
    assert_eq!(decode_sample_24le(&[0x01, 0x02]), Err(BdfError::InvalidLength));
    assert_eq!(decode_sample_24le(&[1, 2, 3, 4]), Err(BdfError::InvalidLength));
    assert_eq!(decode_sample_24le(&[]), Err(BdfError::InvalidLength));
}

#[test]
fn whitespace_agrees_with_std() {
    let mut code: u32 = 0;
    while code <= 0x10FFFF {
        if let Some(c) = char::from_u32(code) {
            assert_eq!(char_is_whitespace(c), c.is_whitespace(), "U+{:04X}", code);
        }
        code += 1;
    }
}

#[test]
fn trim_agrees_with_std() {
    for s in ["", " ", "  a  ", "a b", "\t\n a  b \r\n", "\u{a0}x\u{3000}", "x", " \u{2003}"] {
        assert_eq!(trim_whitespace(s), s.trim());
    }
}

#[test]
fn text_is_trimmed() {
    assert_eq!(decode_text(b"  BIOSEMI "), Ok("BIOSEMI"));
    assert_eq!(decode_text(b" a  b "), Ok("a  b"));
    assert_eq!(decode_text(b"    "), Ok(""));
    assert_eq!(decode_text(&[0xff, 0x20]), Err(BdfError::EncodingError));
}

#[test]
fn integers_parse_like_std() {
    for s in ["0", "-0", "+0", "007", "-1", "+", "-", "", "1 ", " 1", "1_0", "12a",
        "9223372036854775807", "9223372036854775808", "-9223372036854775808",
        "-9223372036854775809", "18446744073709551615", "18446744073709551616",
        "000000000000000000000000000001", "+-1", "--1", "1-"] {
        assert_eq!(parse_i64(s), s.parse::<i64>().ok(), "{:?}", s);
        assert_eq!(parse_u64(s), s.parse::<u64>().ok(), "{:?}", s);
    }
}

#[test]
fn sample_round_trip_over_the_whole_range() {
    let mut v: i32 = -8_388_608;
    while v <= 8_388_607 {
        let bytes = [(v & 0xff) as u8, ((v >> 8) & 0xff) as u8, ((v >> 16) & 0xff) as u8];
        assert_eq!(decode_sample_24le(&bytes), Ok(v));
        v += 1;
    }
}

#[test]
fn integer_fields_decode() {
    assert_eq!(decode_decimal_i64(b"  -1    "), Ok(-1));
    assert_eq!(decode_decimal_i64(b"768     "), Ok(768));
    assert_eq!(decode_decimal_u64(b" 2048 "), Ok(2048));
    assert_eq!(decode_decimal_usize(b"17  "), Ok(17));
    assert_eq!(decode_decimal_usize(b"abcd"), Err(BdfError::MalformedField));
    assert_eq!(decode_decimal_u64(b"-1"), Err(BdfError::MalformedField));
    assert_eq!(decode_decimal_i64(b"1 2"), Err(BdfError::MalformedField));
    assert_eq!(decode_decimal_i64(&[0xc3, 0x28]), Err(BdfError::EncodingError));
}

#[test]
fn errors_describe_themselves() {
    let kinds = [
        BdfError::IoError,
        BdfError::OutOfRange,
        BdfError::EncodingError,
        BdfError::MalformedField,
        BdfError::MalformedHeader,
        BdfError::SizeMismatch,
        BdfError::TruncatedBody,
        BdfError::DuplicateChannelLabel,
        BdfError::InvalidLength,
    ];
    for (i, a) in kinds.iter().enumerate() {
        assert!(!a.message().is_empty());
        for b in kinds.iter().skip(i + 1) {
            assert_ne!(a.message(), b.message());
        }
    }
}

fn strings_over(alphabet: &[char], length: usize) -> Vec<String> {
    let mut all = vec![String::new()];
    let mut last = vec![String::new()];
    for _ in 0..length {
        let mut next = Vec::new();
        for s in last.iter() {
            for c in alphabet {
                let mut t = s.clone();
                t.push(*c);
                next.push(t);
            }
        }
        all.extend(next.iter().cloned());
        last = next;
    }
    all
}

#[test]
fn integers_parse_like_std_on_short_strings() {
    for s in strings_over(&['+', '-', '0', '7', '9', ' ', 'a', '\u{663}'], 5) {
        assert_eq!(parse_i64(&s), s.parse::<i64>().ok(), "{:?}", s);
        assert_eq!(parse_u64(&s), s.parse::<u64>().ok(), "{:?}", s);
    }
}

#[test]
fn integers_parse_like_std_near_the_limits() {
    let limits = [
        i64::MAX as i128,
        i64::MIN as i128,
        u64::MAX as i128,
        0,
        1i128 << 62,
        1i128 << 63,
        1i128 << 64,
        10i128.pow(18),
        10i128.pow(19),
        10i128.pow(20),
    ];
    for limit in limits.iter() {
        for delta in -12i128..=12 {
            for v in [limit + delta, -(limit + delta)] {
                for s in [format!("{}", v), format!("+{}", v), format!("00{}", v)] {
                    assert_eq!(parse_i64(&s), s.parse::<i64>().ok(), "{:?}", s);
                    assert_eq!(parse_u64(&s), s.parse::<u64>().ok(), "{:?}", s);
                }
            }
        }
    }
}

#[test]
fn trim_agrees_with_std_on_short_strings() {
    let alphabet = [' ', '\t', '\n', 'a', '\u{a0}', '\u{3000}', '\u{200b}', '\u{b5}'];
    for s in strings_over(&alphabet, 5) {
        assert_eq!(trim_whitespace(&s), s.trim(), "{:?}", s);
    }
}

#[test]
fn text_may_hold_any_unicode() {
    assert_eq!(decode_text("  \u{b5}V \u{2003}".as_bytes()), Ok("\u{b5}V"));
    assert_eq!(decode_text("\u{1f9e0} EEG".as_bytes()), Ok("\u{1f9e0} EEG"));
    assert_eq!(decode_text(&[0xed, 0xa0, 0x80]), Err(BdfError::EncodingError));
    assert_eq!(decode_text(&[0xc0, 0x80]), Err(BdfError::EncodingError));
    assert_eq!(decode_text(&[0xf4, 0x90, 0x80, 0x80]), Err(BdfError::EncodingError));
    assert_eq!(decode_text(&[0xe2, 0x82]), Err(BdfError::EncodingError));
}
