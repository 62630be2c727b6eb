//! Splicing clauses into the slots of a query.

pub mod agreement;
pub mod clause;
pub mod compose;
pub mod crc;
pub mod cursor;
pub mod error;
pub mod filter;
pub mod following;
pub mod grouping;
pub mod lexer;
pub mod order;
pub mod pager;
pub mod reading;
pub mod resolving;
pub mod rewriting;
pub mod shift;
pub mod spelling;
pub mod splicing;
pub mod syntax;
pub mod value;
pub mod wire;
