use minesweeper::location::{get_location, ParseError, Point};

#[test]
fn parses_upper_and_lower_case() {
    assert_eq!(get_location("A1"), Ok(Point { row: 0, col: 0 }));
    assert_eq!(get_location("h8"), Ok(Point { row: 7, col: 7 }));
    assert_eq!(get_location("C5"), Ok(Point { row: 4, col: 2 }));
    assert_eq!(get_location("d2"), Ok(Point { row: 1, col: 3 }));
}

#[test]
fn rejects_wrong_length() {
    assert_eq!(get_location(""), Err(ParseError::BadLength));
    assert_eq!(get_location("A"), Err(ParseError::BadLength));
    assert_eq!(get_location("A12"), Err(ParseError::BadLength));
    assert_eq!(get_location("ÄÄ"), Err(ParseError::BadLength));
}

#[test]
fn rejects_bad_pattern() {
    assert_eq!(get_location("I1"), Err(ParseError::BadPattern));
    assert_eq!(get_location("A9"), Err(ParseError::BadPattern));
    assert_eq!(get_location("A0"), Err(ParseError::BadPattern));
    assert_eq!(get_location("1A"), Err(ParseError::BadPattern));
    assert_eq!(get_location("é"), Err(ParseError::BadPattern));
    assert_eq!(get_location("@1"), Err(ParseError::BadPattern));
}
