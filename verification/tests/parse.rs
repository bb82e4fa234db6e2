use bedmap::BedMapError;
use bedmap::NumParseError;
use bedmap::parse_range;
use bedmap::parse_uint;

#[test]
fn test_parse_range() {
    assert!(matches!(parse_range("1-3"), Ok((1, 4))));
    assert!(matches!(parse_range("1"), Ok((1, 2))));
    assert!(matches!(parse_range("1-"), Err(BedMapError::RangeFormat)));
    assert!(matches!(parse_range("-1"), Err(BedMapError::RangeFormat)));
    assert!(matches!(parse_range(""), Err(BedMapError::RangeFormat)));
    assert!(matches!(
        parse_range("1-2-3"),
        Err(BedMapError::RangeFormat)
    ));
    assert!(matches!(parse_range("x"), Err(BedMapError::RangeParse(_))));
}

#[test]
fn test_parse_range_rejects_formats() {
    assert!(matches!(parse_range("0"), Err(BedMapError::RangeFormat)));
    assert!(matches!(parse_range("5-3"), Err(BedMapError::RangeFormat)));
    assert!(matches!(parse_range("0-2"), Err(BedMapError::RangeFormat)));
    assert!(matches!(parse_range("--"), Err(BedMapError::RangeFormat)));
    assert!(matches!(parse_range("1--2"), Err(BedMapError::RangeFormat)));
    assert!(matches!(parse_range("1-2-"), Err(BedMapError::RangeFormat)));
}

#[test]
fn test_parse_range_rejects_numbers() {
    assert!(matches!(
        parse_range("1-x"),
        Err(BedMapError::RangeParse(NumParseError::InvalidDigit))
    ));
    assert!(matches!(
        parse_range("x-1"),
        Err(BedMapError::RangeParse(NumParseError::InvalidDigit))
    ));
    assert!(matches!(
        parse_range("1.5"),
        Err(BedMapError::RangeParse(NumParseError::InvalidDigit))
    ));
}

#[test]
fn test_parse_range_values() {
    assert!(matches!(parse_range("7"), Ok((7, 8))));
    assert!(matches!(parse_range("2-2"), Ok((2, 3))));
    assert!(matches!(parse_range("10-340"), Ok((10, 341))));
    assert!(matches!(parse_range("007-009"), Ok((7, 10))));
    assert!(matches!(parse_range("+2-+4"), Ok((2, 5))));
}

#[test]
fn test_parse_range_overflow() {
    let max = format!("{}", usize::MAX);
    assert!(matches!(
        parse_range(&max),
        Err(BedMapError::RangeParse(NumParseError::Overflow))
    ));
    let token = format!("1-{}", "9".repeat(30));
    assert!(matches!(
        parse_range(&token),
        Err(BedMapError::RangeParse(NumParseError::Overflow))
    ));
}

#[test]
fn test_parse_uint_values() {
    assert!(matches!(parse_uint("0"), Ok(0)));
    assert!(matches!(parse_uint("42"), Ok(42)));
    assert!(matches!(parse_uint("007"), Ok(7)));
    assert!(matches!(parse_uint("+5"), Ok(5)));
    let max = format!("{}", usize::MAX);
    assert_eq!(parse_uint(&max).ok(), Some(usize::MAX));
}

#[test]
fn test_parse_uint_rejections() {
    assert!(matches!(parse_uint(""), Err(NumParseError::Empty)));
    assert!(matches!(parse_uint("+"), Err(NumParseError::InvalidDigit)));
    assert!(matches!(parse_uint("1 "), Err(NumParseError::InvalidDigit)));
    assert!(matches!(parse_uint("-3"), Err(NumParseError::InvalidDigit)));
    assert!(matches!(
        parse_uint(&"9".repeat(25)),
        Err(NumParseError::Overflow)
    ));
}
