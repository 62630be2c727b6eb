//! A statement with named gaps, and what goes into them.

pub mod acceptance;
pub mod agreement;
pub mod builder;
pub mod cursor;
pub mod dialect;
pub mod error;
pub mod filling;
pub mod following;
pub mod fragment;
pub mod keyset;
pub mod lower;
pub mod mapping;
pub mod predicate;
pub mod query;
pub mod scan;
pub mod schema;
pub mod sort;
pub mod value;
