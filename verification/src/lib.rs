//! A sparse table: a static structure that answers range-minimum queries over
//! a fixed sequence in constant time, after `O(n log n)` preprocessing.

pub mod error;
pub mod log2;
pub mod minimum;
pub mod order;
pub mod table;

pub use error::QueryError;
pub use log2::highest_bit;
pub use table::SparseTable;
