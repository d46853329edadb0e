//! Lazy, lexicographic enumeration of the k-element combinations of a slice.
pub mod binomial;
pub mod combination;

pub use binomial::{Choose, Chooseable};
