//! A weighted line-histogram engine.
//!
//! Lines of text are given to a [`hist::Histogram`] one by one; each line
//! yields a numeric weight (always 1, or a trailing integral or decimal
//! numeral), weights are accumulated per distinct line, and the result is
//! rendered as a ranked, percentage-annotated report.

pub mod dec;
pub mod extract;
pub mod hist;
pub mod laws;
pub mod order;
pub mod sort;
pub mod table;
pub mod text;
