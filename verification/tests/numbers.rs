use linestats::decimal::Decimal;
use linestats::error::Error;
use std::cmp::Ordering;

fn parsed(text: &str) -> Result<i64, Error> {
    Decimal::parse(text.as_bytes()).map(|d| d.scaled)
}

#[test]
fn a_literal_is_read_in_ten_thousandths() {
    assert_eq!(parsed("10.0"), Ok(100_000));
    assert_eq!(parsed("12.5"), Ok(125_000));
    assert_eq!(parsed("0.0001"), Ok(1));
    assert_eq!(parsed("3.1415"), Ok(31_415));
    assert_eq!(parsed("42"), Ok(420_000));
    assert_eq!(parsed("0"), Ok(0));
    assert_eq!(parsed("007.50"), Ok(75_000));
}

#[test]
fn a_sign_may_lead() {
    assert_eq!(parsed("-3.25"), Ok(-32_500));
    assert_eq!(parsed("+3.25"), Ok(32_500));
    assert_eq!(parsed("-0.0"), Ok(0));
    assert_eq!(parsed("-99.9"), Ok(-999_000));
}

#[test]
fn one_side_of_the_point_may_be_empty() {
    assert_eq!(parsed(".5"), Ok(5_000));
    assert_eq!(parsed("5."), Ok(50_000));
    assert_eq!(parsed("-.25"), Ok(-2_500));
}

#[test]
fn what_is_no_literal_is_no_number() {
    for text in ["", ".", "-", "+", "-.", "abc", "1e3", "1.2.3", "1,5", " 1", "1 ", "--1", "+-1", "1-", "12a.5", "1.5x", "inf", "NaN", "0x10"] {
        assert_eq!(parsed(text), Err(Error::InvalidNumber), "{:?}", text);
    }
}

#[test]
fn more_fraction_digits_than_the_type_keeps_are_refused() {
    assert_eq!(parsed("1.2345"), Ok(12_345));
    assert_eq!(parsed("1.23456"), Err(Error::InvalidNumber));
    assert_eq!(parsed("1.00000"), Err(Error::InvalidNumber));
}

#[test]
fn the_largest_magnitude_is_the_last_that_is_read() {
    assert_eq!(parsed("922337203685477.5807"), Ok(i64::MAX));
    assert_eq!(parsed("-922337203685477.5807"), Ok(-i64::MAX));
    assert_eq!(parsed("922337203685477.5808"), Err(Error::InvalidNumber));
    assert_eq!(parsed("922337203685478"), Err(Error::InvalidNumber));
    assert_eq!(parsed("922337203685477"), Ok(9_223_372_036_854_770_000));
    assert_eq!(parsed("99999999999999999999999999999999999999"), Err(Error::InvalidNumber));
    assert_eq!(parsed("000000000000000000000000000000000001.5"), Ok(15_000));
}

#[test]
fn values_are_ordered_as_their_units() {
    let a = Decimal { scaled: -5 };
    let b = Decimal { scaled: 3 };
    assert_eq!(a.compare(&b), Ordering::Less);
    assert_eq!(b.compare(&a), Ordering::Greater);
    assert_eq!(a.compare(&a), Ordering::Equal);
    let small = Decimal::parse(b"-0.5").unwrap();
    let zero = Decimal::parse(b"0.0").unwrap();
    assert_eq!(small.compare(&zero), Ordering::Less);
    let x = Decimal::parse(b"2.10").unwrap();
    let y = Decimal::parse(b"2.9").unwrap();
    assert_eq!(x.compare(&y), Ordering::Less);
}
