//! Order keys: printable strings that encode base 95 fractions between 0 and 1,
//! for indexing ordered lists that several replicas edit at once.
//!
//! A key holds one printable ASCII character per base 95 digit, space for 0 up
//! to tilde for 94, with the leading `0.` left out. Keys without trailing
//! spaces sort as strings exactly as the fractions they denote sort as numbers.

pub mod average;
pub mod digits;
pub mod key;
pub mod order;
pub mod steps;

pub use key::{Base95, ParseError};
