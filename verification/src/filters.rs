//! The data model: elementary filters (numbers and ranges) and ordered
//! filter specifications, together with the matching predicate that decides
//! which line numbers an elementary filter selects.

use vstd::prelude::*;

verus! {

/// Error returned when a specification string does not conform to the
/// filter grammar.
#[derive(Debug, Clone, Copy, PartialEq, Eq)]
pub enum LineNoError {
    UnableToParse,
}

/// An inclusive range of 1-based line numbers. A bound that is `None` is
/// unbounded: the range extends to the beginning or the end of the input.
/// When both bounds are present and `start > end`, the range is *reversed*:
/// it matches the same numeric interval but asks for output in descending
/// order.
#[derive(Debug, Clone, Copy, PartialEq, Eq)]
pub struct LineRange {
    /// Inclusive lower bound. Unbounded if `None`.
    pub start: Option<usize>,
    /// Inclusive upper bound. Unbounded if `None`.
    pub end: Option<usize>,
}

impl LineRange {
    /// Whether this range selects the line numbered `line_num`. Both bounds
    /// are inclusive; a written order of `start > end` matches the same
    /// interval as its mirror image.
    pub open spec fn spec_matches(self, line_num: int) -> bool {
        match (self.start, self.end) {
            (Some(start), Some(end)) => {
                if end < start {
                    end <= line_num && line_num <= start
                } else {
                    start <= line_num && line_num <= end
                }
            },
            (Some(start), None) => line_num >= start,
            (None, Some(end)) => line_num <= end,
            (None, None) => true,
        }
    }

    /// Decide whether `line_num` falls inside this range.
    pub fn matches(&self, line_num: usize) -> (r: bool)
        ensures
            r == self.spec_matches(line_num as int),
    {
        match (self.start, self.end) {
            (Some(start), Some(end)) => {
                if end < start {
                    line_num >= end && line_num <= start
                } else {
                    line_num >= start && line_num <= end
                }
            },
            (Some(start), None) => line_num >= start,
            (None, Some(end)) => line_num <= end,
            (None, None) => true,
        }
    }
}

/// One elementary filter: either a single 1-based line number or an
/// inclusive range of line numbers.
#[derive(Debug, Clone, Copy, PartialEq, Eq)]
pub enum Filter {
    Number(usize),
    Range(LineRange),
}

impl Filter {
    /// Whether this elementary filter selects the line numbered `line_num`.
    pub open spec fn spec_matches(self, line_num: int) -> bool {
        match self {
            Filter::Number(num) => line_num == num,
            Filter::Range(range) => range.spec_matches(line_num),
        }
    }

    /// Decide whether this filter selects the line numbered `line_num`.
    pub fn matches(&self, line_num: usize) -> (r: bool)
        ensures
            r == self.spec_matches(line_num as int),
    {
        match self {
            Filter::Number(num) => line_num == *num,
            Filter::Range(range) => range.matches(line_num),
        }
    }
}

/// An ordered, possibly empty sequence of elementary filters, the parsed
/// form of one specification string. The order is significant: it fixes the
/// grouping order of the selected output.
#[derive(Debug, Clone, PartialEq, Eq)]
pub struct Filters {
    filters: Vec<Filter>,
}

impl View for Filters {
    type V = Seq<Filter>;

    closed spec fn view(&self) -> Seq<Filter> {
        self.filters@
    }
}

impl DeepView for Filters {
    type V = Seq<Filter>;

    open spec fn deep_view(&self) -> Seq<Filter> {
        self.view()
    }
}

impl Filters {
    /// Build a specification directly from a list of elementary filters.
    pub fn new(filters: Vec<Filter>) -> (r: Filters)
        ensures
            r@ == filters@,
    {
        Filters { filters }
    }

    /// The number of elementary filters in this specification.
    pub fn len(&self) -> (n: usize)
        ensures
            n == self@.len(),
    {
        self.filters.len()
    }

    /// The elementary filter at position `i`.
    pub fn get(&self, i: usize) -> (f: Filter)
        requires
            i < self@.len(),
        ensures
            f == self@[i as int],
    {
        self.filters[i]
    }

    /// Append every filter of `other`, in order, after the filters already
    /// held by `self`.
    pub fn join(&mut self, other: &Filters)
        ensures
            final(self)@ == old(self)@ + other@,
    {
        let mut i: usize = 0;
        while i < other.filters.len()
            invariant
                i <= other.filters.len(),
                self.filters@ == old(self).filters@ + other.filters@.take(i as int),
            decreases other.filters.len() - i,
        {
            self.filters.push(other.filters[i]);
            proof {
                assert(old(self).filters@ + other.filters@.take(i + 1) =~= (old(
                    self,
                ).filters@ + other.filters@.take(i as int)).push(other.filters@[i as int]));
            }
            i += 1;
        }
        proof {
            assert(other.filters@.take(other.filters@.len() as int) =~= other.filters@);
        }
    }
}

} // verus!
