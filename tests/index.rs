use exercises::error::ErrorKind;
use exercises::index::{access, parse_index};

#[test]
fn access_in_range_returns_element() {
    let a = [1, 2, 3, 4, 5];
    assert_eq!(access(&a, "2"), Ok(3));
    assert_eq!(access(&a, "0"), Ok(1));
    assert_eq!(access(&a, "4"), Ok(5));
    assert_eq!(access(&a, "+4"), Ok(5));
}

#[test]
fn access_past_end_is_out_of_range() {
    let a = [1, 2, 3, 4, 5];
    assert_eq!(access(&a, "5"), Err(ErrorKind::IndexOutOfRange));
    assert_eq!(access(&a, "18446744073709551615"), Err(ErrorKind::IndexOutOfRange));
    let empty: [i32; 0] = [];
    assert_eq!(access(&empty, "0"), Err(ErrorKind::IndexOutOfRange));
}

#[test]
fn access_non_number_is_parse_error() {
    let a = [1, 2, 3, 4, 5];
    assert_eq!(access(&a, "abc"), Err(ErrorKind::ParseError));
    assert_eq!(access(&a, ""), Err(ErrorKind::ParseError));
    assert_eq!(access(&a, "-1"), Err(ErrorKind::ParseError));
    assert_eq!(access(&a, " 2"), Err(ErrorKind::ParseError));
}

#[test]
fn parse_index_values() {
    assert_eq!(parse_index("0"), Ok(0));
    assert_eq!(parse_index("007"), Ok(7));
    assert_eq!(parse_index("+12"), Ok(12));
    assert_eq!(parse_index("18446744073709551615"), Ok(usize::MAX));
}

#[test]
fn parse_index_rejects() {
    assert_eq!(parse_index("+"), Err(ErrorKind::ParseError));
    assert_eq!(parse_index("++1"), Err(ErrorKind::ParseError));
    assert_eq!(parse_index("1a"), Err(ErrorKind::ParseError));
    assert_eq!(parse_index("18446744073709551616"), Err(ErrorKind::ParseError));
    assert_eq!(parse_index("99999999999999999999x"), Err(ErrorKind::ParseError));
    assert_eq!(parse_index("٣"), Err(ErrorKind::ParseError));
}
