//! Exact profiling of tabular text data.
//!
//! A dataset is a table of text cells under named columns. This crate
//! measures what can be measured exactly on such a table, and every measure
//! is proved against a statement of what it is: which cells are missing or
//! hold numbers, the kind of each column, repeated rows, columns that repeat
//! one another, the number of different texts and the most frequent texts of
//! a column, and the labels that are given to columns.
//!
//! Sums, means and roots of the numbers in a column are floating-point
//! arithmetic and are left to the caller. The crate names the cells that
//! hold numbers ([`stats::numeric_rows`]), and takes the caller's verdicts
//! where a result depends on them (the order of a column's numbers in
//! [`patterns::detect_temporal_patterns`], the shape of its summary in
//! [`patterns::suggest_transformations`], the number of negative values in
//! [`cleaning::check_consistency`], the slots of a histogram in
//! [`patterns::bin_counts`]).

pub mod cleaning;
pub mod counting;
pub mod dataset;
pub mod frequency;
pub mod noise;
pub mod patterns;
pub mod profile;
pub mod stats;
pub mod text;
pub mod types;

pub use crate::dataset::{Dataset, PrestoError};
pub use crate::profile::{describe, Description};
