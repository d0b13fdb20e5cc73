use lineno::filter;
use lineno::Filter;
use lineno::Filters;
use lineno::LineRange;

/// The numbers 1..=1000, one per line.
fn data() -> Vec<String> {
    (1..=1000).map(|i| i.to_string()).collect()
}

fn small(n: usize) -> Vec<String> {
    (1..=n).map(|i| i.to_string()).collect()
}

fn texts(pairs: Vec<(usize, String)>) -> Vec<String> {
    pairs.into_iter().map(|(_, text)| text).collect()
}

#[test]
fn no_specs_is_passthrough() {
    let lines = small(10);
    let out = filter(Vec::new(), lines.clone());
    let expected: Vec<(usize, String)> =
        lines.into_iter().enumerate().map(|(i, l)| (i + 1, l)).collect();
    assert_eq!(expected, out);
}

#[test]
fn empty_specification_selects_nothing() {
    let filters = Filters::new(Vec::new());
    let out = filters.filter(&data());
    assert_eq!(Vec::<(usize, String)>::new(), out);
}

#[test]
fn single_line_selection() {
    for n in [1usize, 2, 3, 10, 100, 9, 99, 999] {
        let filters = Filters::parse(&n.to_string()).unwrap();
        let out = filters.filter(&data());
        assert_eq!(vec![(n, n.to_string())], out);
    }
}

#[test]
fn number_beyond_input_selects_nothing() {
    let filters = Filters::parse("1001").unwrap();
    assert_eq!(Vec::<(usize, String)>::new(), filters.filter(&data()));
    let filters = Filters::parse("0").unwrap();
    assert_eq!(Vec::<(usize, String)>::new(), filters.filter(&data()));
}

#[test]
fn range_ascending() {
    let filters = Filters::parse("3:5").unwrap();
    let out = filters.filter(&small(10));
    let expected = vec![
        (3usize, "3".to_string()),
        (4, "4".to_string()),
        (5, "5".to_string()),
    ];
    assert_eq!(expected, out);
}

#[test]
fn range_clipped_to_input() {
    let filters = Filters::parse("8:20").unwrap();
    let out = filters.filter(&small(10));
    assert_eq!(vec!["8".to_string(), "9".to_string(), "10".to_string()], texts(out));
}

#[test]
fn range_from_end_of_input() {
    let filters = Filters::parse("998:").unwrap();
    let out = filters.filter(&data());
    assert_eq!(
        vec!["998".to_string(), "999".to_string(), "1000".to_string()],
        texts(out)
    );
}

#[test]
fn range_from_start_of_input() {
    let filters = Filters::parse(":3").unwrap();
    let out = filters.filter(&data());
    assert_eq!(vec!["1".to_string(), "2".to_string(), "3".to_string()], texts(out));
}

#[test]
fn full_range_selects_everything() {
    let filters = Filters::parse(":").unwrap();
    let out = filters.filter(&small(4));
    assert_eq!(
        vec!["1".to_string(), "2".to_string(), "3".to_string(), "4".to_string()],
        texts(out)
    );
}

#[test]
fn reversed_range_descends() {
    let filters = Filters::parse("5:3").unwrap();
    let out = filters.filter(&data());
    assert_eq!(
        vec![
            (5usize, "5".to_string()),
            (4, "4".to_string()),
            (3, "3".to_string()),
        ],
        out
    );
}

#[test]
fn reversed_range_selects_same_lines_as_forward() {
    let fwd = Filters::parse("3:5").unwrap().filter(&small(10));
    let rev = Filters::parse("5:3").unwrap().filter(&small(10));
    let mut rev_reversed = rev.clone();
    rev_reversed.reverse();
    assert_eq!(fwd, rev_reversed);
}

#[test]
fn join_equals_one_combined_specification() {
    let lines = small(10);
    let split = filter(
        vec![
            Filters::parse("1,2").unwrap(),
            Filters::parse("4:5").unwrap(),
        ],
        lines.clone(),
    );
    let combined = filter(vec![Filters::parse("1,2,4:5").unwrap()], lines);
    assert_eq!(combined, split);
}

#[test]
fn mixed_specification_groups_in_order() {
    let filters = Filters::parse("1,2,3:4,5:6").unwrap();
    let out = filters.filter(&small(10));
    assert_eq!(
        vec![
            "1".to_string(),
            "2".to_string(),
            "3".to_string(),
            "4".to_string(),
            "5".to_string(),
            "6".to_string(),
        ],
        texts(out)
    );
}

#[test]
fn matching_several_filters_duplicates_lines() {
    let filters = Filters::parse("1,1:2").unwrap();
    let out = filters.filter(&small(5));
    assert_eq!(
        vec![
            (1usize, "1".to_string()),
            (1, "1".to_string()),
            (2, "2".to_string()),
        ],
        out
    );
}

#[test]
fn groups_come_out_in_filter_order() {
    let filters = Filters::parse("4,1:2").unwrap();
    let out = filters.filter(&small(5));
    assert_eq!(
        vec![
            (4usize, "4".to_string()),
            (1, "1".to_string()),
            (2, "2".to_string()),
        ],
        out
    );
}

#[test]
fn range_with_zero_start() {
    let filters = Filters::parse("0:2").unwrap();
    let out = filters.filter(&small(5));
    assert_eq!(vec!["1".to_string(), "2".to_string()], texts(out));
}

#[test]
fn filter_on_empty_input() {
    let filters = Filters::parse("1,3:5").unwrap();
    assert_eq!(Vec::<(usize, String)>::new(), filters.filter(&Vec::new()));
    assert_eq!(Vec::<(usize, String)>::new(), filter(Vec::new(), Vec::new()));
}

#[test]
fn join_appends_filters_in_order() {
    let mut a = Filters::parse("1,2").unwrap();
    let b = Filters::parse("3:4").unwrap();
    a.join(&b);
    let expected = Filters::new(vec![
        Filter::Number(1),
        Filter::Number(2),
        Filter::Range(LineRange { start: Some(3), end: Some(4) }),
    ]);
    assert_eq!(expected, a);
}

#[test]
fn filters_len_and_get() {
    let f = Filters::parse("7,1:2").unwrap();
    assert_eq!(2, f.len());
    assert_eq!(Filter::Number(7), f.get(0));
    assert_eq!(
        Filter::Range(LineRange { start: Some(1), end: Some(2) }),
        f.get(1)
    );
}

#[test]
fn elementary_matches() {
    let r = LineRange { start: Some(3), end: Some(5) };
    assert!(!r.matches(2));
    assert!(r.matches(3));
    assert!(r.matches(5));
    assert!(!r.matches(6));
    let rev = LineRange { start: Some(5), end: Some(3) };
    assert!(rev.matches(4));
    assert!(!rev.matches(6));
    let open = LineRange { start: None, end: Some(2) };
    assert!(open.matches(1));
    assert!(!open.matches(3));
    assert!(Filter::Number(4).matches(4));
    assert!(!Filter::Number(4).matches(5));
}
