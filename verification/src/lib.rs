//! Line-number filter library: a compact mini-language for selecting lines
//! from a text stream by number and by inclusive number ranges.
//!
//! A filter specification such as `1,4,10:12` or `9:5` is parsed into an
//! ordered sequence of elementary filters (single numbers and ranges), and
//! the selection engine turns one or more parsed specifications plus a
//! sequence of input lines into the ordered sequence of selected lines.

pub mod filters;
pub mod parse;
pub mod select;

pub use select::filter;
pub use filters::Filter;
pub use filters::Filters;
pub use filters::LineNoError;
pub use filters::LineRange;
