//! The filter grammar parser.
//!
//! The supported grammar is the symmetric-optional shape: both bounds of a
//! range may be omitted.
//!
//! ```text
//! spec       := filter (separator filter)*
//! separator  := "," space* | space+          space := ' ' | '\t'
//! filter     := range | number
//! range      := number? rangesep number?
//! rangesep   := ".." | ":"
//! number     := digit+    (decimal, unsigned, value must fit in usize)
//! ```
//!
//! `range` is tried before `number`, so a bare number is a single-line
//! filter and a number followed by a range separator starts a range. A
//! number whose value does not fit in `usize` is not a number token, and a
//! specification containing one never parses: the digits it leaves behind
//! can complete no other production. Parsing consumes the whole string;
//! anything left over (a trailing separator, stray characters) makes the
//! whole specification fail.
//!
//! The spec functions below define the grammar over a sequence of
//! characters and a position; each executable function mirrors one of them
//! exactly.

use vstd::prelude::*;

use crate::filters::Filter;
use crate::filters::Filters;
use crate::filters::LineNoError;
use crate::filters::LineRange;
use vstd::string::StrSliceExecFns;

verus! {

/// A decimal digit.
pub open spec fn is_digit(c: char) -> bool {
    48 <= c as int <= 57
}

/// The numeric value of one decimal digit.
pub open spec fn digit_val(c: char) -> int {
    c as int - 48
}

/// A separator space: a blank or a tab.
pub open spec fn is_space(c: char) -> bool {
    c == ' ' || c == '\t'
}

/// The end of the maximal run of digits beginning at position `i`.
pub open spec fn digits_end(s: Seq<char>, i: int) -> int
    decreases s.len() - i,
{
    if i < s.len() && is_digit(s[i]) {
        digits_end(s, i + 1)
    } else {
        i
    }
}

/// The end of the maximal run of spaces beginning at position `i`.
pub open spec fn spaces_end(s: Seq<char>, i: int) -> int
    decreases s.len() - i,
{
    if i < s.len() && is_space(s[i]) {
        spaces_end(s, i + 1)
    } else {
        i
    }
}

/// The value of the decimal digits at positions `i..j`, most significant
/// first.
pub open spec fn num_value(s: Seq<char>, i: int, j: int) -> int
    decreases j - i,
{
    if j <= i {
        0
    } else {
        num_value(s, i, j - 1) * 10 + digit_val(s[j - 1])
    }
}

/// The `number` production at position `i`: a nonempty digit run whose
/// value fits in `usize`. Yields the value and the position after the run.
pub open spec fn parse_number(s: Seq<char>, i: int) -> Option<(int, int)> {
    let j = digits_end(s, i);
    if j > i && num_value(s, i, j) <= usize::MAX as int {
        Some((num_value(s, i, j), j))
    } else {
        None
    }
}

/// The `rangesep` production at position `i`: `".."` or `":"`.
pub open spec fn parse_range_sep(s: Seq<char>, i: int) -> Option<int> {
    if 0 <= i && i + 2 <= s.len() && s[i] == '.' && s[i + 1] == '.' {
        Some(i + 2)
    } else if 0 <= i && i + 1 <= s.len() && s[i] == ':' {
        Some(i + 1)
    } else {
        None
    }
}

/// The `range` production at position `i`: an optional start number, a
/// range separator, and an optional end number.
pub open spec fn parse_range(s: Seq<char>, i: int) -> Option<(LineRange, int)> {
    let start_step = match parse_number(s, i) {
        Some((v, j)) => (Some(v as usize), j),
        None => (None, i),
    };
    match parse_range_sep(s, start_step.1) {
        Some(i2) => {
            let end_step = match parse_number(s, i2) {
                Some((v, j)) => (Some(v as usize), j),
                None => (None, i2),
            };
            Some((LineRange { start: start_step.0, end: end_step.0 }, end_step.1))
        },
        None => None,
    }
}

/// The `filter` production at position `i`: a range if one starts here,
/// otherwise a single number.
pub open spec fn parse_filter_at(s: Seq<char>, i: int) -> Option<(Filter, int)> {
    match parse_range(s, i) {
        Some((r, j)) => Some((Filter::Range(r), j)),
        None => match parse_number(s, i) {
            Some((v, j)) => Some((Filter::Number(v as usize), j)),
            None => None,
        },
    }
}

/// The `separator` production at position `i`: a comma followed by any
/// number of spaces, or one or more spaces.
pub open spec fn parse_separator(s: Seq<char>, i: int) -> Option<int> {
    if 0 <= i && i < s.len() && (s[i] == ',' || is_space(s[i])) {
        Some(spaces_end(s, i + 1))
    } else {
        None
    }
}

pub proof fn lemma_digits_end_bounds(s: Seq<char>, i: int)
    requires
        0 <= i <= s.len(),
    ensures
        i <= digits_end(s, i) <= s.len(),
    decreases s.len() - i,
{
    if i < s.len() && is_digit(s[i]) {
        lemma_digits_end_bounds(s, i + 1);
    }
}

pub proof fn lemma_digits_end_chars(s: Seq<char>, i: int)
    requires
        0 <= i <= s.len(),
    ensures
        forall|k: int| i <= k < digits_end(s, i) ==> is_digit(#[trigger] s[k]),
    decreases s.len() - i,
{
    if i < s.len() && is_digit(s[i]) {
        lemma_digits_end_chars(s, i + 1);
    }
}

pub proof fn lemma_spaces_end_bounds(s: Seq<char>, i: int)
    requires
        0 <= i <= s.len(),
    ensures
        i <= spaces_end(s, i) <= s.len(),
    decreases s.len() - i,
{
    if i < s.len() && is_space(s[i]) {
        lemma_spaces_end_bounds(s, i + 1);
    }
}

pub proof fn lemma_num_value_nonneg(s: Seq<char>, i: int, j: int)
    requires
        i <= j,
        forall|m: int| i <= m < j ==> is_digit(#[trigger] s[m]),
    ensures
        num_value(s, i, j) >= 0,
    decreases j - i,
{
    if i < j {
        lemma_num_value_nonneg(s, i, j - 1);
    }
}

/// Appending digits to a digit run never shrinks its value.
pub proof fn lemma_num_value_mono(s: Seq<char>, i: int, k: int, j: int)
    requires
        i <= k <= j,
        forall|m: int| i <= m < j ==> is_digit(#[trigger] s[m]),
    ensures
        num_value(s, i, k) <= num_value(s, i, j),
    decreases j - k,
{
    if k < j {
        lemma_num_value_mono(s, i, k, j - 1);
        lemma_num_value_nonneg(s, i, j - 1);
    }
}

pub proof fn lemma_parse_number_bounds(s: Seq<char>, i: int)
    requires
        0 <= i <= s.len(),
    ensures
        parse_number(s, i) matches Some(p) ==> i < p.1 <= s.len() && 0 <= p.0
            <= usize::MAX as int,
{
    lemma_digits_end_bounds(s, i);
    lemma_digits_end_chars(s, i);
    if parse_number(s, i) is Some {
        lemma_num_value_nonneg(s, i, digits_end(s, i));
    }
}

pub proof fn lemma_parse_range_bounds(s: Seq<char>, i: int)
    requires
        0 <= i <= s.len(),
    ensures
        parse_range(s, i) matches Some(p) ==> i < p.1 <= s.len(),
{
    lemma_parse_number_bounds(s, i);
    let i1 = match parse_number(s, i) {
        Some(p) => p.1,
        None => i,
    };
    match parse_range_sep(s, i1) {
        Some(i2) => lemma_parse_number_bounds(s, i2),
        None => (),
    }
}

pub proof fn lemma_parse_filter_bounds(s: Seq<char>, i: int)
    requires
        0 <= i <= s.len(),
    ensures
        parse_filter_at(s, i) matches Some(p) ==> i < p.1 <= s.len(),
{
    lemma_parse_range_bounds(s, i);
    lemma_parse_number_bounds(s, i);
}

pub proof fn lemma_parse_separator_bounds(s: Seq<char>, i: int)
    requires
        0 <= i <= s.len(),
    ensures
        parse_separator(s, i) matches Some(j) ==> i < j <= s.len(),
{
    if 0 <= i && i < s.len() && (s[i] == ',' || is_space(s[i])) {
        lemma_spaces_end_bounds(s, i + 1);
    }
}

/// The maximal digit run beginning at `i` ends exactly at `j` when the
/// characters up to `j` are digits and the one at `j`, if any, is not.
pub proof fn lemma_digits_end_run(s: Seq<char>, i: int, j: int)
    requires
        0 <= i <= j <= s.len(),
        forall|m: int| i <= m < j ==> is_digit(#[trigger] s[m]),
        j == s.len() || !is_digit(s[j]),
    ensures
        digits_end(s, i) == j,
    decreases j - i,
{
    if i < j {
        lemma_digits_end_run(s, i + 1, j);
    }
}

/// The maximal space run beginning at `i` ends exactly at `j` when the
/// characters up to `j` are spaces and the one at `j`, if any, is not.
pub proof fn lemma_spaces_end_run(s: Seq<char>, i: int, j: int)
    requires
        0 <= i <= j <= s.len(),
        forall|m: int| i <= m < j ==> is_space(#[trigger] s[m]),
        j == s.len() || !is_space(s[j]),
    ensures
        spaces_end(s, i) == j,
    decreases j - i,
{
    if i < j {
        lemma_spaces_end_run(s, i + 1, j);
    }
}

/// The value of a digit run depends only on its characters: shifting the
/// positions by `k` into another sequence with the same characters keeps
/// the value.
pub proof fn lemma_num_value_shift(s: Seq<char>, t: Seq<char>, k: int, i: int, j: int)
    requires
        i <= j,
        forall|m: int| i <= m < j ==> s[m + k] == #[trigger] t[m],
    ensures
        num_value(s, i + k, j + k) == num_value(t, i, j),
    decreases j - i,
{
    if i < j {
        lemma_num_value_shift(s, t, k, i, j - 1);
    }
}

/// The `(separator filter)*` tail of a specification, beginning at
/// position `i`: the filters it yields and the position where it stops. A
/// separator not followed by a filter is not consumed.
pub open spec fn parse_rest(s: Seq<char>, i: int) -> (Seq<Filter>, int)
    decreases s.len() - i,
    via parse_rest_decreases
{
    match parse_separator(s, i) {
        Some(j) => match parse_filter_at(s, j) {
            Some(p) => {
                let tail = parse_rest(s, p.1);
                (seq![p.0] + tail.0, tail.1)
            },
            None => (Seq::empty(), i),
        },
        None => (Seq::empty(), i),
    }
}

#[via_fn]
proof fn parse_rest_decreases(s: Seq<char>, i: int) {
    match parse_separator(s, i) {
        Some(j) => {
            lemma_parse_separator_bounds(s, i);
            lemma_parse_filter_bounds(s, j);
        },
        None => (),
    }
}

/// The whole grammar: one filter, then any number of separated filters,
/// with nothing left over. `None` is a parse failure.
pub open spec fn spec_parse(s: Seq<char>) -> Option<Seq<Filter>> {
    match parse_filter_at(s, 0) {
        Some(p) => {
            let tail = parse_rest(s, p.1);
            if tail.1 == s.len() {
                Some(seq![p.0] + tail.0)
            } else {
                None
            }
        },
        None => None,
    }
}

/// A nonempty string of decimal digits alone, with no separator, parses to
/// the single filter `Number(v)`, where `v` is the value of the digits.
pub proof fn lemma_parse_decimal(s: Seq<char>)
    requires
        s.len() > 0,
        forall|m: int| 0 <= m < s.len() ==> is_digit(#[trigger] s[m]),
        num_value(s, 0, s.len() as int) <= usize::MAX as int,
    ensures
        spec_parse(s) == Some(seq![Filter::Number(num_value(s, 0, s.len() as int) as usize)]),
{
    lemma_digits_end_run(s, 0, s.len() as int);
    let n = s.len() as int;
    let v = num_value(s, 0, n);
    assert(parse_number(s, 0) == Some((v, n)));
    assert(parse_range_sep(s, n) is None);
    assert(parse_range(s, 0) is None);
    assert(parse_filter_at(s, 0) == Some((Filter::Number(v as usize), n)));
    assert(parse_separator(s, n) is None);
    assert(parse_rest(s, n) == (Seq::<Filter>::empty(), n));
    assert(seq![Filter::Number(v as usize)] + Seq::<Filter>::empty() =~= seq![
        Filter::Number(v as usize),
    ]);
}

/// Two numbers parse to the same pair of filters whether they are
/// separated by a comma, a space, or a comma followed by spaces.
pub proof fn lemma_parse_separated_numbers(d1: Seq<char>, sep: Seq<char>, d2: Seq<char>)
    requires
        d1.len() > 0,
        d2.len() > 0,
        forall|m: int| 0 <= m < d1.len() ==> is_digit(#[trigger] d1[m]),
        forall|m: int| 0 <= m < d2.len() ==> is_digit(#[trigger] d2[m]),
        num_value(d1, 0, d1.len() as int) <= usize::MAX as int,
        num_value(d2, 0, d2.len() as int) <= usize::MAX as int,
        sep == seq![','] || sep == seq![' '] || sep == seq![',', ' '],
    ensures
        spec_parse(d1 + sep + d2) == Some(
            seq![
                Filter::Number(num_value(d1, 0, d1.len() as int) as usize),
                Filter::Number(num_value(d2, 0, d2.len() as int) as usize),
            ],
        ),
{
    let s = d1 + sep + d2;
    let n1 = d1.len() as int;
    let n2 = n1 + sep.len() as int;
    let n = s.len() as int;
    assert(forall|m: int| 0 <= m < d1.len() ==> s[m] == #[trigger] d1[m]);
    assert(forall|m: int| 0 <= m < sep.len() ==> s[n1 + m] == #[trigger] sep[m]);
    assert(forall|m: int| 0 <= m < d2.len() ==> s[n2 + m] == #[trigger] d2[m]);
    assert(!is_digit(',') && !is_digit(' '));
    assert(is_space(' ') && !is_space(',') && !is_space(':'));
    // the first number
    lemma_digits_end_run(s, 0, n1);
    lemma_num_value_shift(s, d1, 0, 0, n1);
    let v1 = num_value(d1, 0, n1);
    assert(parse_number(s, 0) == Some((v1, n1)));
    assert(parse_range_sep(s, n1) is None);
    assert(parse_range(s, 0) is None);
    assert(parse_filter_at(s, 0) == Some((Filter::Number(v1 as usize), n1)));
    // the separator: a comma or a space, then any further spaces
    assert(is_digit(s[n2]));
    lemma_spaces_end_run(s, n1 + 1, n2);
    assert(parse_separator(s, n1) == Some(n2));
    // the second number
    lemma_digits_end_run(s, n2, n);
    lemma_num_value_shift(s, d2, n2, 0, d2.len() as int);
    let v2 = num_value(d2, 0, d2.len() as int);
    assert(parse_number(s, n2) == Some((v2, n)));
    assert(parse_range_sep(s, n) is None);
    assert(parse_range(s, n2) is None);
    assert(parse_filter_at(s, n2) == Some((Filter::Number(v2 as usize), n)));
    // nothing follows the second number
    assert(parse_separator(s, n) is None);
    assert(parse_rest(s, n) == (Seq::<Filter>::empty(), n));
    assert(parse_rest(s, n1) == (seq![Filter::Number(v2 as usize)], n)) by {
        assert(seq![Filter::Number(v2 as usize)] + Seq::<Filter>::empty() =~= seq![
            Filter::Number(v2 as usize),
        ]);
    }
    assert(seq![Filter::Number(v1 as usize)] + seq![Filter::Number(v2 as usize)] =~= seq![
        Filter::Number(v1 as usize),
        Filter::Number(v2 as usize),
    ]);
}

/// A specification of one range parses the same whether its separator is
/// written `:` or `..`: it yields a single `Range` filter whose bounds are
/// the values of the digit runs on either side of the separator, each
/// absent when its run is empty.
pub proof fn lemma_parse_single_range(d1: Seq<char>, sep: Seq<char>, d2: Seq<char>)
    requires
        forall|m: int| 0 <= m < d1.len() ==> is_digit(#[trigger] d1[m]),
        forall|m: int| 0 <= m < d2.len() ==> is_digit(#[trigger] d2[m]),
        num_value(d1, 0, d1.len() as int) <= usize::MAX as int,
        num_value(d2, 0, d2.len() as int) <= usize::MAX as int,
        sep == seq![':'] || sep == seq!['.', '.'],
    ensures
        spec_parse(d1 + sep + d2) == Some(
            seq![
                Filter::Range(
                    LineRange {
                        start: if d1.len() > 0 {
                            Some(num_value(d1, 0, d1.len() as int) as usize)
                        } else {
                            None
                        },
                        end: if d2.len() > 0 {
                            Some(num_value(d2, 0, d2.len() as int) as usize)
                        } else {
                            None
                        },
                    },
                ),
            ],
        ),
{
    let s = d1 + sep + d2;
    let n1 = d1.len() as int;
    let n2 = n1 + sep.len() as int;
    let n = s.len() as int;
    assert(forall|m: int| 0 <= m < d1.len() ==> s[m] == #[trigger] d1[m]);
    assert(forall|m: int| 0 <= m < sep.len() ==> s[n1 + m] == #[trigger] sep[m]);
    assert(forall|m: int| 0 <= m < d2.len() ==> s[n2 + m] == #[trigger] d2[m]);
    assert(!is_digit(':'));
    assert(!is_digit('.'));
    // the start run
    lemma_digits_end_run(s, 0, n1);
    lemma_num_value_shift(s, d1, 0, 0, n1);
    let v1 = num_value(d1, 0, n1);
    if n1 > 0 {
        assert(parse_number(s, 0) == Some((v1, n1)));
    } else {
        assert(parse_number(s, 0) is None);
    }
    // the separator
    if sep == seq![':'] {
        assert(s[n1] == ':');
        assert(parse_range_sep(s, n1) == Some(n2));
    } else {
        assert(s[n1] == '.' && s[n1 + 1] == '.');
        assert(parse_range_sep(s, n1) == Some(n2));
    }
    // the end run
    lemma_digits_end_run(s, n2, n);
    lemma_num_value_shift(s, d2, n2, 0, d2.len() as int);
    let v2 = num_value(d2, 0, d2.len() as int);
    if d2.len() > 0 {
        assert(parse_number(s, n2) == Some((v2, n)));
    } else {
        assert(parse_number(s, n2) is None);
    }
    let r = LineRange {
        start: if d1.len() > 0 {
            Some(v1 as usize)
        } else {
            None
        },
        end: if d2.len() > 0 {
            Some(v2 as usize)
        } else {
            None
        },
    };
    assert(parse_range(s, 0) == Some((r, n)));
    assert(parse_filter_at(s, 0) == Some((Filter::Range(r), n)));
    assert(parse_separator(s, n) is None);
    assert(parse_rest(s, n) == (Seq::<Filter>::empty(), n));
    assert(seq![Filter::Range(r)] + Seq::<Filter>::empty() =~= seq![Filter::Range(r)]);
}

/// Collect the characters of `s` into a vector.
fn to_chars(s: &str) -> (v: Vec<char>)
    ensures
        v@ == s@,
{
    let n = s.unicode_len();
    let mut v: Vec<char> = Vec::new();
    let mut i: usize = 0;
    while i < n
        invariant
            i <= n,
            n == s@.len(),
            v@ == s@.take(i as int),
        decreases n - i,
    {
        let c = s.get_char(i);
        v.push(c);
        proof {
            assert(s@.take(i + 1) =~= s@.take(i as int).push(s@[i as int]));
        }
        i += 1;
    }
    proof {
        assert(s@.take(s@.len() as int) =~= s@);
    }
    v
}

fn is_digit_exec(c: char) -> (r: bool)
    ensures
        r == is_digit(c),
{
    let u = c as u32;
    48 <= u && u <= 57
}

fn is_space_exec(c: char) -> (r: bool)
    ensures
        r == is_space(c),
{
    c == ' ' || c == '\t'
}

fn char_digit(c: char) -> (d: usize)
    requires
        is_digit(c),
    ensures
        d as int == digit_val(c),
        d <= 9,
{
    ((c as u32) - 48) as usize
}

/// The end of the maximal digit run beginning at `i`.
fn scan_digits(v: &Vec<char>, i: usize) -> (j: usize)
    requires
        i <= v@.len(),
    ensures
        j as int == digits_end(v@, i as int),
        i <= j <= v@.len(),
{
    let mut j: usize = i;
    while j < v.len() && is_digit_exec(v[j])
        invariant
            i <= j <= v@.len(),
            digits_end(v@, i as int) == digits_end(v@, j as int),
        decreases v@.len() - j,
    {
        j += 1;
    }
    j
}

/// The end of the maximal space run beginning at `i`.
fn scan_spaces(v: &Vec<char>, i: usize) -> (j: usize)
    requires
        i <= v@.len(),
    ensures
        j as int == spaces_end(v@, i as int),
        i <= j <= v@.len(),
{
    let mut j: usize = i;
    while j < v.len() && is_space_exec(v[j])
        invariant
            i <= j <= v@.len(),
            spaces_end(v@, i as int) == spaces_end(v@, j as int),
        decreases v@.len() - j,
    {
        j += 1;
    }
    j
}

/// The value of the digit run at `i..j`, or `None` when it does not fit in
/// `usize`.
fn digits_value(v: &Vec<char>, i: usize, j: usize) -> (r: Option<usize>)
    requires
        i <= j <= v@.len(),
        forall|m: int| i <= m < j ==> is_digit(#[trigger] v@[m]),
    ensures
        match r {
            Some(val) => val as int == num_value(v@, i as int, j as int),
            None => num_value(v@, i as int, j as int) > usize::MAX as int,
        },
{
    let mut acc: usize = 0;
    let mut k: usize = i;
    while k < j
        invariant
            i <= k <= j <= v@.len(),
            forall|m: int| i <= m < j ==> is_digit(#[trigger] v@[m]),
            acc as int == num_value(v@, i as int, k as int),
        decreases j - k,
    {
        let d = char_digit(v[k]);
        let wide: u128 = (acc as u128) * 10 + (d as u128);
        assert(wide as int == num_value(v@, i as int, k + 1));
        if wide > (usize::MAX as u128) {
            proof {
                lemma_num_value_mono(v@, i as int, k + 1, j as int);
            }
            return None;
        }
        acc = wide as usize;
        k += 1;
    }
    Some(acc)
}

/// The `number` production at `i`, mirroring `parse_number`.
fn parse_number_exec(v: &Vec<char>, i: usize) -> (r: Option<(usize, usize)>)
    requires
        i <= v@.len(),
    ensures
        r is Some <==> parse_number(v@, i as int) is Some,
        r matches Some(p) ==> parse_number(v@, i as int) == Some((p.0 as int, p.1 as int)) && i
            < p.1 <= v@.len(),
{
    let j = scan_digits(v, i);
    if j == i {
        return None;
    }
    proof {
        lemma_digits_end_chars(v@, i as int);
    }
    match digits_value(v, i, j) {
        Some(val) => Some((val, j)),
        None => None,
    }
}

/// The `rangesep` production at `i`, mirroring `parse_range_sep`.
fn parse_range_sep_exec(v: &Vec<char>, i: usize) -> (r: Option<usize>)
    requires
        i <= v@.len(),
    ensures
        r is Some <==> parse_range_sep(v@, i as int) is Some,
        r matches Some(j) ==> parse_range_sep(v@, i as int) == Some(j as int) && i < j <= v@.len(),
{
    if i < v.len() && v[i] == '.' && i + 1 < v.len() && v[i + 1] == '.' {
        Some(i + 2)
    } else if i < v.len() && v[i] == ':' {
        Some(i + 1)
    } else {
        None
    }
}

/// The `range` production at `i`, mirroring `parse_range`.
fn parse_range_exec(v: &Vec<char>, i: usize) -> (r: Option<(LineRange, usize)>)
    requires
        i <= v@.len(),
    ensures
        r is Some <==> parse_range(v@, i as int) is Some,
        r matches Some(p) ==> parse_range(v@, i as int) == Some((p.0, p.1 as int)) && i < p.1
            <= v@.len(),
{
    let (start, i1) = match parse_number_exec(v, i) {
        Some(p) => (Some(p.0), p.1),
        None => (None, i),
    };
    match parse_range_sep_exec(v, i1) {
        Some(i2) => {
            let (end, i3) = match parse_number_exec(v, i2) {
                Some(p) => (Some(p.0), p.1),
                None => (None, i2),
            };
            Some((LineRange { start, end }, i3))
        },
        None => None,
    }
}

/// The `filter` production at `i`, mirroring `parse_filter_at`.
fn parse_filter_exec(v: &Vec<char>, i: usize) -> (r: Option<(Filter, usize)>)
    requires
        i <= v@.len(),
    ensures
        r is Some <==> parse_filter_at(v@, i as int) is Some,
        r matches Some(p) ==> parse_filter_at(v@, i as int) == Some((p.0, p.1 as int)) && i < p.1
            <= v@.len(),
{
    match parse_range_exec(v, i) {
        Some(p) => Some((Filter::Range(p.0), p.1)),
        None => match parse_number_exec(v, i) {
            Some(p) => Some((Filter::Number(p.0), p.1)),
            None => None,
        },
    }
}

/// The `separator` production at `i`, mirroring `parse_separator`.
fn parse_separator_exec(v: &Vec<char>, i: usize) -> (r: Option<usize>)
    requires
        i <= v@.len(),
    ensures
        r is Some <==> parse_separator(v@, i as int) is Some,
        r matches Some(j) ==> parse_separator(v@, i as int) == Some(j as int) && i < j <= v@.len(),
{
    if i < v.len() && (v[i] == ',' || is_space_exec(v[i])) {
        Some(scan_spaces(v, i + 1))
    } else {
        None
    }
}

impl Filters {
    /// Parse one specification string. `Ok` holds the parsed filter
    /// sequence exactly when the string conforms to the grammar; every
    /// malformed string yields `UnableToParse`.
    pub fn parse(s: &str) -> (r: Result<Filters, LineNoError>)
        ensures
            r matches Ok(f) ==> spec_parse(s@) == Some(f@),
            r matches Err(e) ==> spec_parse(s@) is None && e == LineNoError::UnableToParse,
    {
        let v = to_chars(s);
        match parse_filter_exec(&v, 0) {
            None => Err(LineNoError::UnableToParse),
            Some((f0, i0)) => {
                let mut fs: Vec<Filter> = Vec::new();
                fs.push(f0);
                let mut i: usize = i0;
                let ghost full = seq![f0] + parse_rest(v@, i0 as int).0;
                let ghost end = parse_rest(v@, i0 as int).1;
                let mut done = false;
                proof {
                    assert(fs@ =~= seq![f0]);
                }
                while !done
                    invariant
                        i <= v@.len(),
                        full == fs@ + parse_rest(v@, i as int).0,
                        end == parse_rest(v@, i as int).1,
                        done ==> parse_rest(v@, i as int) == (Seq::<Filter>::empty(), i as int),
                    decreases (if done {
                        0int
                    } else {
                        1int
                    }), v@.len() - i,
                {
                    match parse_separator_exec(&v, i) {
                        None => {
                            done = true;
                        },
                        Some(j) => {
                            match parse_filter_exec(&v, j) {
                                None => {
                                    done = true;
                                },
                                Some((f, k)) => {
                                    let ghost fs_before = fs@;
                                    fs.push(f);
                                    proof {
                                        assert(parse_rest(v@, i as int) == (
                                            seq![f] + parse_rest(v@, k as int).0,
                                            parse_rest(v@, k as int).1,
                                        ));
                                        assert(fs_before + (seq![f] + parse_rest(v@, k as int).0)
                                            =~= fs@ + parse_rest(v@, k as int).0);
                                    }
                                    i = k;
                                },
                            }
                        },
                    }
                }
                if i == v.len() {
                    proof {
                        assert(full =~= fs@);
                    }
                    Ok(Filters::new(fs))
                } else {
                    Err(LineNoError::UnableToParse)
                }
            },
        }
    }
}

impl core::str::FromStr for Filters {
    type Err = LineNoError;

    /// Parse one specification string, as `Filters::parse` does.
    fn from_str(s: &str) -> Result<Filters, LineNoError> {
        Filters::parse(s)
    }
}

} // verus!
