//! Four interchangeable strategies that apply an ordered list of
//! "add column `b` into column `a`" operations to a dense row-major matrix,
//! each proved to compute the same result.

pub mod columns;
pub mod laws;
pub mod model;
pub mod strategies;
pub mod workload;

pub use columns::{add_columns, merge_columns, split_columns, NamedColumns};
pub use strategies::{by_cols, by_cols_smart, by_rows, by_rows_transposed};
pub use workload::random_operations;
