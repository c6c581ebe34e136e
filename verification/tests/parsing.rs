use dag_stats::format::{is_white_space, CharClass};
use dag_stats::parser::{find_first, parse_line, parse_number};
use dag_stats::{parse_database, FormatError, FormatErrorKind, TransactionNode};

fn node(left: usize, right: usize, timestamp: usize) -> TransactionNode {
    TransactionNode { left, right, timestamp }
}

fn chars(text: &str) -> Vec<char> {
    text.chars().collect()
}

fn invalid_number(line: usize) -> FormatError {
    FormatError { line, kind: FormatErrorKind::InvalidNumber }
}

fn field_count(line: usize) -> FormatError {
    FormatError { line, kind: FormatErrorKind::FieldCount }
}

#[test]
fn parses_records_in_order() {
    let parsed = parse_database("3\n0 0 0\n1 0 1\n1 2 5\n");
    assert_eq!(parsed, Ok(vec![node(0, 0, 0), node(1, 0, 1), node(1, 2, 5)]));
}

#[test]
fn last_line_needs_no_line_feed() {
    let parsed = parse_database("2\n0 0 0\n1 0 1");
    assert_eq!(parsed, Ok(vec![node(0, 0, 0), node(1, 0, 1)]));
}

#[test]
fn empty_text_has_no_records() {
    assert_eq!(parse_database(""), Ok(vec![]));
}

#[test]
fn header_alone_has_no_records() {
    assert_eq!(parse_database("0\n"), Ok(vec![]));
    assert_eq!(parse_database("0"), Ok(vec![]));
    assert_eq!(parse_database("\n"), Ok(vec![]));
}

#[test]
fn header_is_not_looked_at() {
    let parsed = parse_database("this is no number at all\n0 0 7\n");
    assert_eq!(parsed, Ok(vec![node(0, 0, 7)]));
    let parsed = parse_database("99\n0 0 7\n");
    assert_eq!(parsed, Ok(vec![node(0, 0, 7)]));
}

#[test]
fn carriage_return_before_line_feed_is_white_space() {
    let parsed = parse_database("2\r\n0 0 0\r\n1 0 1\r\n");
    assert_eq!(parsed, Ok(vec![node(0, 0, 0), node(1, 0, 1)]));
}

#[test]
fn any_white_space_separates_fields() {
    let parsed = parse_database("1\n \t 4\t\t5   6 \t\n");
    assert_eq!(parsed, Ok(vec![node(4, 5, 6)]));
    let parsed = parse_database("1\n7\u{a0}8\u{3000}9\u{2003}\n");
    assert_eq!(parsed, Ok(vec![node(7, 8, 9)]));
}

#[test]
fn plus_sign_and_leading_zeros_are_accepted() {
    let parsed = parse_database("1\n+1 007 +0\n");
    assert_eq!(parsed, Ok(vec![node(1, 7, 0)]));
}

#[test]
fn largest_number_is_accepted() {
    let text = format!("1\n{} 0 0\n", usize::MAX);
    assert_eq!(parse_database(&text), Ok(vec![node(usize::MAX, 0, 0)]));
}

#[test]
fn number_beyond_the_machine_word_is_rejected() {
    let beyond = format!("{}", usize::MAX as u128 + 1);
    let text = format!("1\n{} 0 0\n", beyond);
    assert_eq!(parse_database(&text), Err(invalid_number(2)));
    let text = format!("1\n0 0 {}0\n", usize::MAX);
    assert_eq!(parse_database(&text), Err(invalid_number(2)));
    assert_eq!(parse_database("1\n0 0 99999999999999999999999999999999999999999\n"), Err(invalid_number(2)));
}

#[test]
fn too_few_fields() {
    assert_eq!(parse_database("1\n0 0\n"), Err(field_count(2)));
    assert_eq!(parse_database("1\n5\n"), Err(field_count(2)));
}

#[test]
fn too_many_fields() {
    assert_eq!(parse_database("1\n0 0 0 0\n"), Err(field_count(2)));
}

#[test]
fn blank_line_is_no_record() {
    assert_eq!(parse_database("2\n0 0 0\n\n1 0 1\n"), Err(field_count(3)));
    assert_eq!(parse_database("1\n0 0 0\n\n"), Err(field_count(3)));
    assert_eq!(parse_database("1\n0 0 0\n   \n"), Err(field_count(3)));
    assert_eq!(parse_database("\n\n"), Err(field_count(2)));
}

#[test]
fn field_that_is_no_number() {
    assert_eq!(parse_database("1\n0 x 0\n"), Err(invalid_number(2)));
    assert_eq!(parse_database("1\n-1 0 0\n"), Err(invalid_number(2)));
    assert_eq!(parse_database("1\n1.5 0 0\n"), Err(invalid_number(2)));
    assert_eq!(parse_database("1\n0 0 +\n"), Err(invalid_number(2)));
    assert_eq!(parse_database("1\n0 0 1+\n"), Err(invalid_number(2)));
    assert_eq!(parse_database("1\n0 0 ++1\n"), Err(invalid_number(2)));
    assert_eq!(parse_database("1\n0 0 0x10\n"), Err(invalid_number(2)));
    assert_eq!(parse_database("1\n0 0 \u{661}\n"), Err(invalid_number(2)));
}

#[test]
fn bad_number_is_reported_before_the_field_count() {
    assert_eq!(parse_database("1\n0 x\n"), Err(invalid_number(2)));
    assert_eq!(parse_database("1\n0 0 0 x\n"), Err(invalid_number(2)));
    assert_eq!(parse_database("1\nx\n"), Err(invalid_number(2)));
}

#[test]
fn first_bad_line_is_reported() {
    assert_eq!(parse_database("3\n0 0 0\n1 0\n1 x 1\n"), Err(field_count(3)));
    assert_eq!(parse_database("3\n0 0 0\n1 0 1\n1 x 1\n2 2\n"), Err(invalid_number(4)));
}

#[test]
fn malformed_line_gives_no_partial_result() {
    let parsed = parse_database("3\n0 0 0\n1 0 1\nbroken\n");
    assert!(parsed.is_err());
    assert_eq!(parsed, Err(invalid_number(4)));
}

#[test]
fn rendered_records_parse_back() {
    let records = vec![
        node(0, 0, 0),
        node(1, 0, 1),
        node(1, 2, 12345),
        node(usize::MAX, 3, 7),
        node(10, 100, 1000),
    ];
    let mut text = String::from("5\n");
    for record in &records {
        text.push_str(&format!("{} {} {}\n", record.left, record.right, record.timestamp));
    }
    assert_eq!(parse_database(&text), Ok(records));
}

#[test]
fn parse_number_reads_decimals() {
    assert_eq!(parse_number(&chars("0")), Some(0));
    assert_eq!(parse_number(&chars("42")), Some(42));
    assert_eq!(parse_number(&chars("+42")), Some(42));
    assert_eq!(parse_number(&chars("000")), Some(0));
    assert_eq!(parse_number(&chars("1234567890")), Some(1234567890));
    assert_eq!(parse_number(&chars(&format!("{}", usize::MAX))), Some(usize::MAX));
}

#[test]
fn parse_number_rejects_the_rest() {
    assert_eq!(parse_number(&chars("")), None);
    assert_eq!(parse_number(&chars("+")), None);
    assert_eq!(parse_number(&chars("-")), None);
    assert_eq!(parse_number(&chars("-3")), None);
    assert_eq!(parse_number(&chars("3-")), None);
    assert_eq!(parse_number(&chars("12a")), None);
    assert_eq!(parse_number(&chars("a12")), None);
    assert_eq!(parse_number(&chars("1 2")), None);
    assert_eq!(parse_number(&chars(&format!("{}", usize::MAX as u128 + 1))), None);
    assert_eq!(parse_number(&chars(&format!("{}9", usize::MAX))), None);
}

#[test]
fn parse_line_reads_three_fields() {
    assert_eq!(parse_line(&chars("1 2 3")), Ok(node(1, 2, 3)));
    assert_eq!(parse_line(&chars("  1\t2  3  ")), Ok(node(1, 2, 3)));
    assert_eq!(parse_line(&chars("")), Err(FormatErrorKind::FieldCount));
    assert_eq!(parse_line(&chars("1 2")), Err(FormatErrorKind::FieldCount));
    assert_eq!(parse_line(&chars("1 2 3 4")), Err(FormatErrorKind::FieldCount));
    assert_eq!(parse_line(&chars("1 2 z")), Err(FormatErrorKind::InvalidNumber));
    assert_eq!(parse_line(&chars("1 2 3 z")), Err(FormatErrorKind::InvalidNumber));
}

#[test]
fn find_first_finds_or_gives_the_length() {
    let text = chars("ab  cd\nef");
    assert_eq!(find_first(&text, CharClass::Blank, 0), 2);
    assert_eq!(find_first(&text, CharClass::Solid, 2), 4);
    assert_eq!(find_first(&text, CharClass::Solid, 4), 4);
    assert_eq!(find_first(&text, CharClass::LineFeed, 0), 6);
    assert_eq!(find_first(&text, CharClass::Blank, 7), 9);
    assert_eq!(find_first(&text, CharClass::LineFeed, 7), 9);
    assert_eq!(find_first(&text, CharClass::LineFeed, 9), 9);
    assert_eq!(find_first(&text, CharClass::Solid, 30), 9);
    assert_eq!(find_first(&[], CharClass::Solid, 0), 0);
}

#[test]
fn char_classes() {
    assert!(CharClass::Blank.holds(' '));
    assert!(CharClass::Blank.holds('\n'));
    assert!(!CharClass::Blank.holds('1'));
    assert!(CharClass::Solid.holds('1'));
    assert!(!CharClass::Solid.holds('\t'));
    assert!(CharClass::LineFeed.holds('\n'));
    assert!(!CharClass::LineFeed.holds('\r'));
    assert!(!CharClass::LineFeed.holds(' '));
}

#[test]
fn white_space_is_the_unicode_property() {
    let mut code: u32 = 0;
    while code <= 0x10ffff {
        if let Some(c) = char::from_u32(code) {
            assert_eq!(is_white_space(c), c.is_whitespace(), "U+{:04X}", code);
        }
        code += 1;
    }
}
