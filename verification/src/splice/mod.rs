//! Splicing fragments of any kind into the marked comments of a query.

pub mod compose;
pub mod dialect;
pub mod fragment;
pub mod order;
