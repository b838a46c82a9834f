//! Parsing of input lines for the `,` instruction.

use brainf::input::parse_cell;

#[test]
fn parses_plain_numbers() {
    assert_eq!(parse_cell("5"), Some(5));
    assert_eq!(parse_cell("0"), Some(0));
    assert_eq!(parse_cell("255"), Some(255));
    assert_eq!(parse_cell("007"), Some(7));
}

#[test]
fn trims_surrounding_whitespace() {
    assert_eq!(parse_cell("5\n"), Some(5));
    assert_eq!(parse_cell(" \t42 \r\n"), Some(42));
}

#[test]
fn accepts_one_leading_plus_sign() {
    assert_eq!(parse_cell("+7"), Some(7));
    assert_eq!(parse_cell("++7"), None);
    assert_eq!(parse_cell("+"), None);
}

#[test]
fn rejects_out_of_range_values() {
    assert_eq!(parse_cell("256"), None);
    assert_eq!(parse_cell("300"), None);
    assert_eq!(parse_cell("99999999999999999999"), None);
}

#[test]
fn rejects_non_numeric_text() {
    assert_eq!(parse_cell(""), None);
    assert_eq!(parse_cell("   "), None);
    assert_eq!(parse_cell("abc"), None);
    assert_eq!(parse_cell("12a"), None);
    assert_eq!(parse_cell("1 2"), None);
    assert_eq!(parse_cell("-1"), None);
}
