//! Weighted edit distance between two character sequences.
//!
//! The engine fills a dynamic-programming cost table under configurable
//! insertion, deletion and substitution costs, returns the minimum total
//! cost of transforming one sequence into the other, and can render the
//! filled table as text.

pub mod engine;
pub mod laws;
pub mod text;
