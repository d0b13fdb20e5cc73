use lineno::Filter;
use lineno::Filters;
use lineno::LineNoError;
use lineno::LineRange;
use std::str::FromStr;

fn num(n: usize) -> Filter {
    Filter::Number(n)
}

fn range(start: Option<usize>, end: Option<usize>) -> Filter {
    Filter::Range(LineRange { start, end })
}

#[test]
fn parse_single_number() {
    let actual = Filters::parse("7").unwrap();
    let expected = Filters::new(vec![num(7)]);
    assert_eq!(expected, actual);
}

#[test]
fn parse_number_variants() {
    for n in [1usize, 2, 3, 10, 100, 1000, 9, 99, 999] {
        let actual = Filters::parse(&n.to_string()).unwrap();
        let expected = Filters::new(vec![num(n)]);
        assert_eq!(expected, actual);
    }
}

#[test]
fn parse_range_colon_and_dots() {
    let expected = Filters::new(vec![range(Some(1), Some(2))]);
    assert_eq!(expected, Filters::parse("1:2").unwrap());
    assert_eq!(expected, Filters::parse("1..2").unwrap());
}

#[test]
fn parse_range_open_end() {
    let expected = Filters::new(vec![range(Some(1), None)]);
    assert_eq!(expected, Filters::parse("1:").unwrap());
    assert_eq!(expected, Filters::parse("1..").unwrap());
}

#[test]
fn parse_range_open_start() {
    let expected = Filters::new(vec![range(None, Some(5))]);
    assert_eq!(expected, Filters::parse(":5").unwrap());
    assert_eq!(expected, Filters::parse("..5").unwrap());
}

#[test]
fn parse_range_no_bounds() {
    let expected = Filters::new(vec![range(None, None)]);
    assert_eq!(expected, Filters::parse(":").unwrap());
    assert_eq!(expected, Filters::parse("..").unwrap());
}

#[test]
fn parse_separator_equivalence() {
    let expected = Filters::new(vec![num(1), num(2), num(3)]);
    assert_eq!(expected, Filters::parse("1,2,3").unwrap());
    assert_eq!(expected, Filters::parse("1 2 3").unwrap());
    assert_eq!(expected, Filters::parse("1, 2, 3").unwrap());
}

#[test]
fn parse_tab_separator() {
    let expected = Filters::new(vec![num(1), num(2)]);
    assert_eq!(expected, Filters::parse("1\t2").unwrap());
    assert_eq!(expected, Filters::parse("1,\t2").unwrap());
}

#[test]
fn parse_range_lists() {
    let expected = Filters::new(vec![
        range(Some(1), Some(2)),
        range(Some(2), Some(3)),
        range(Some(3), Some(4)),
    ]);
    assert_eq!(expected, Filters::parse("1:2,2:3,3:4").unwrap());
    assert_eq!(expected, Filters::parse("1:2 2:3 3:4").unwrap());
    assert_eq!(expected, Filters::parse("1:2, 2:3, 3:4").unwrap());
}

#[test]
fn parse_mixed_numbers_and_ranges() {
    let expected = Filters::new(vec![
        num(1),
        num(2),
        range(Some(3), Some(4)),
        range(Some(5), Some(6)),
    ]);
    assert_eq!(expected, Filters::parse("1,2,3:4,5:6").unwrap());
    assert_eq!(expected, Filters::parse("1 2 3:4 5:6").unwrap());
    assert_eq!(expected, Filters::parse("1, 2, 3:4, 5:6").unwrap());
}

#[test]
fn parse_reversed_range() {
    let expected = Filters::new(vec![range(Some(9), Some(5))]);
    assert_eq!(expected, Filters::parse("9:5").unwrap());
}

#[test]
fn parse_empty_string_fails() {
    assert_eq!(Err(LineNoError::UnableToParse), Filters::parse(""));
}

#[test]
fn parse_non_numeric_fails() {
    assert_eq!(Err(LineNoError::UnableToParse), Filters::parse("abc"));
    assert_eq!(Err(LineNoError::UnableToParse), Filters::parse("1a"));
    assert_eq!(Err(LineNoError::UnableToParse), Filters::parse("-1"));
    assert_eq!(Err(LineNoError::UnableToParse), Filters::parse("+1"));
}

#[test]
fn parse_malformed_separators_fail() {
    assert_eq!(Err(LineNoError::UnableToParse), Filters::parse("1,"));
    assert_eq!(Err(LineNoError::UnableToParse), Filters::parse(",1"));
    assert_eq!(Err(LineNoError::UnableToParse), Filters::parse("1,,2"));
    assert_eq!(Err(LineNoError::UnableToParse), Filters::parse(" 1"));
    assert_eq!(Err(LineNoError::UnableToParse), Filters::parse("1 "));
}

#[test]
fn parse_malformed_ranges_fail() {
    assert_eq!(Err(LineNoError::UnableToParse), Filters::parse("1:2:3"));
    assert_eq!(Err(LineNoError::UnableToParse), Filters::parse("1.2"));
    assert_eq!(Err(LineNoError::UnableToParse), Filters::parse("1..2..3"));
    assert_eq!(Err(LineNoError::UnableToParse), Filters::parse("."));
}

#[test]
fn parse_overflowing_number_fails() {
    assert_eq!(
        Err(LineNoError::UnableToParse),
        Filters::parse("99999999999999999999999999")
    );
    assert_eq!(
        Err(LineNoError::UnableToParse),
        Filters::parse("5:99999999999999999999999999")
    );
    assert_eq!(
        Err(LineNoError::UnableToParse),
        Filters::parse("99999999999999999999999999:5")
    );
}

#[test]
fn parse_largest_number() {
    let s = usize::MAX.to_string();
    let actual = Filters::parse(&s).unwrap();
    assert_eq!(Filters::new(vec![num(usize::MAX)]), actual);
}

#[test]
fn parse_via_from_str() {
    let actual = Filters::from_str("3").unwrap();
    assert_eq!(Filters::new(vec![num(3)]), actual);
    assert!(Filters::from_str("x").is_err());
}
