//! A masked byte-pattern scanner.
//!
//! A pattern is a short needle of fixed bytes interleaved with single-byte
//! wildcards, parsed from text such as `"01 02 ? 59 ff"`. Scanning walks a
//! haystack in 64-byte chunks, first collecting candidate positions where the
//! pattern's anchor group occurs, then verifying the full needle at each
//! candidate. An optional alignment restricts matches to addresses that are
//! multiples of a power of two.

pub use crate::pattern::{ParsePatternError, Pattern};
pub use crate::scanner::Scanner;

pub mod const_utils;
pub mod masks;
pub mod pattern;
pub mod reference;
pub mod scanner;
pub mod xxh3;
