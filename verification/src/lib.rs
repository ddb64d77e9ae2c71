//! A rule-based text-correction engine: compiled token patterns are matched
//! against annotated token sequences, successful matches capture groups with
//! reconciled character spans, and the suggestions derived from all rules are
//! merged into a non-overlapping, position-sorted patch list that rewrites the
//! original text.

pub mod composition;
pub mod rules;
pub mod types;
