//! Rewriting a query that was already written.

pub mod agreement;
pub mod error;
pub mod filter;
pub mod placeholder;
pub mod query;
pub mod sort;
pub mod syntax;
pub mod tree;
