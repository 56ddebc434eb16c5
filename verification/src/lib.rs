//! A character-class library: sets of Unicode code points stored compactly as
//! a sorted list of disjoint, non-adjacent inclusive ranges.
//!
//! The engine supports membership testing, union, negation and
//! canonicalization, with each operation carrying a machine-checked contract
//! over the set of covered code points.

pub mod laws;
pub mod model;

mod class;

pub use class::CharClass;
