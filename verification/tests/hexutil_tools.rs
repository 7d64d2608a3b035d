use streamchat::errors::ParseError;
use streamchat::hexutil::{bytes_to_hex, hex_string_to_bytes, is_printable, parse_offset};

#[test]
fn parse_offset_decimal_and_hex() {
    assert_eq!(parse_offset("0"), Ok(0));
    assert_eq!(parse_offset("123"), Ok(123));
    assert_eq!(parse_offset("+7"), Ok(7));
    assert_eq!(parse_offset("0x1F"), Ok(31));
    assert_eq!(parse_offset("0X10"), Ok(16));
    assert_eq!(parse_offset("0xdeadbeef"), Ok(0xDEADBEEF));
    assert_eq!(parse_offset("18446744073709551615"), Ok(u64::MAX));
    assert_eq!(parse_offset("0xFFFFFFFFFFFFFFFF"), Ok(u64::MAX));
}

#[test]
fn parse_offset_rejects_bad_text() {
    assert_eq!(parse_offset(""), Err(ParseError::InvalidOffset));
    assert_eq!(parse_offset("xyz"), Err(ParseError::InvalidOffset));
    assert_eq!(parse_offset("0x"), Err(ParseError::InvalidOffset));
    assert_eq!(parse_offset("0xg1"), Err(ParseError::InvalidOffset));
    assert_eq!(parse_offset("12a"), Err(ParseError::InvalidOffset));
    // One past the largest 64-bit value overflows.
    assert_eq!(
        parse_offset("18446744073709551616"),
        Err(ParseError::InvalidOffset)
    );
    assert_eq!(parse_offset("-5"), Err(ParseError::InvalidOffset));
}

#[test]
fn hex_string_to_bytes_decodes_pairs() {
    assert_eq!(hex_string_to_bytes("deadbeef"), Ok(vec![0xDE, 0xAD, 0xBE, 0xEF]));
    assert_eq!(hex_string_to_bytes("de ad be ef"), Ok(vec![0xDE, 0xAD, 0xBE, 0xEF]));
    assert_eq!(hex_string_to_bytes(""), Ok(vec![]));
    assert_eq!(hex_string_to_bytes("0A fF"), Ok(vec![0x0A, 0xFF]));
}

#[test]
fn hex_string_to_bytes_rejects_bad_text() {
    assert_eq!(hex_string_to_bytes("abc"), Err(ParseError::OddHexLength));
    assert_eq!(hex_string_to_bytes("a g"), Err(ParseError::InvalidHexDigit));
    assert_eq!(hex_string_to_bytes("zz"), Err(ParseError::InvalidHexDigit));
}

#[test]
fn bytes_to_hex_renders_lowercase_pairs() {
    assert_eq!(bytes_to_hex(&[]), "");
    assert_eq!(bytes_to_hex(&[0xDE]), "de");
    assert_eq!(bytes_to_hex(&[0xDE, 0xAD, 0x0F]), "de ad 0f");
}

#[test]
fn hex_text_round_trip() {
    let bytes = vec![0x00u8, 0x7F, 0xFF, 0x42];
    let text = bytes_to_hex(&bytes);
    assert_eq!(hex_string_to_bytes(&text), Ok(bytes));
}

#[test]
fn is_printable_maps_control_bytes_to_dots() {
    assert_eq!(is_printable(65), 'A');
    assert_eq!(is_printable(32), ' ');
    assert_eq!(is_printable(126), '~');
    assert_eq!(is_printable(127), '.');
    assert_eq!(is_printable(31), '.');
    assert_eq!(is_printable(9), '.');
    assert_eq!(is_printable(200), '.');
}
