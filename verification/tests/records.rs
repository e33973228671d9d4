use linestats::bytes::find_byte;
use linestats::decimal::Decimal;
use linestats::error::Error;
use linestats::order::same_bytes;
use linestats::record::{delimiter_index, parse_line, Record};

#[test]
fn a_line_is_a_key_and_a_value() {
    assert_eq!(
        parse_line(b"X;10.0"),
        Ok(Record { key: b"X".to_vec(), value: Decimal { scaled: 100_000 } })
    );
    assert_eq!(
        parse_line("Zürich;-4.5".as_bytes()),
        Ok(Record { key: "Zürich".as_bytes().to_vec(), value: Decimal { scaled: -45_000 } })
    );
}

#[test]
fn the_key_may_be_empty() {
    assert_eq!(parse_line(b";1.0"), Ok(Record { key: vec![], value: Decimal { scaled: 10_000 } }));
}

#[test]
fn a_line_without_a_delimiter_is_malformed() {
    assert_eq!(parse_line(b"X10.0"), Err(Error::MalformedRecord));
    assert_eq!(parse_line(b""), Err(Error::MalformedRecord));
}

#[test]
fn a_line_with_two_delimiters_is_malformed() {
    assert_eq!(parse_line(b"X;10.0;20.0"), Err(Error::MalformedRecord));
    assert_eq!(parse_line(b"X;;10.0"), Err(Error::MalformedRecord));
    assert_eq!(parse_line(b"X;10.0;"), Err(Error::MalformedRecord));
    assert_eq!(parse_line(b";;"), Err(Error::MalformedRecord));
}

#[test]
fn a_value_that_is_no_number_is_refused() {
    assert_eq!(parse_line(b"X;"), Err(Error::InvalidNumber));
    assert_eq!(parse_line(b"X;abc"), Err(Error::InvalidNumber));
    assert_eq!(parse_line(b"X;1.0 "), Err(Error::InvalidNumber));
}

#[test]
fn bytes_that_are_no_text_are_refused_first() {
    assert_eq!(parse_line(&[0xff, b';', b'1']), Err(Error::InvalidEncoding));
    assert_eq!(parse_line(&[b'X', 0xc3]), Err(Error::InvalidEncoding));
    assert_eq!(parse_line(&[0xc3, 0x28, b';', b';']), Err(Error::InvalidEncoding));
    assert_eq!(parse_line(&[b'X', b';', 0x80]), Err(Error::InvalidEncoding));
    assert_eq!(parse_line(&[0xed, 0xa0, 0x80, b';', b'1']), Err(Error::InvalidEncoding));
}

#[test]
fn find_byte_gives_the_first_at_or_after() {
    assert_eq!(find_byte(b"a;b;c", 0, b';'), 1);
    assert_eq!(find_byte(b"a;b;c", 2, b';'), 3);
    assert_eq!(find_byte(b"a;b;c", 4, b';'), 5);
    assert_eq!(find_byte(b"", 0, b';'), 0);
}

#[test]
fn same_bytes_compares_content() {
    assert!(same_bytes(b"abc", b"abc"));
    assert!(same_bytes(b"", b""));
    assert!(!same_bytes(b"abc", b"abd"));
    assert!(!same_bytes(b"abc", b"ab"));
    assert!(!same_bytes(b"", b"a"));
}

#[test]
fn delimiter_index_finds_the_one_delimiter() {
    assert_eq!(delimiter_index(b"Berlin;12.5"), Ok(6));
    assert_eq!(delimiter_index(b";"), Ok(0));
    assert_eq!(delimiter_index(b"key;not a number"), Ok(3));
    assert_eq!(delimiter_index(b"Berlin"), Err(Error::MalformedRecord));
    assert_eq!(delimiter_index(b"a;b;c"), Err(Error::MalformedRecord));
    assert_eq!(delimiter_index(&[0xfe, b';']), Err(Error::InvalidEncoding));
}
