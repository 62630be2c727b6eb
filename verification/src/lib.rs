//! Layers filters, orderings and page positions over SQL that was already written.

pub mod bytes;
pub mod codec;
pub mod columns;
pub mod composer;
pub mod driver;
pub mod expression;
pub mod instant;
pub mod lexical;
pub mod meaning;
pub mod mistake;
pub mod paging;
pub mod pattern;
pub mod seeking;
pub mod splice;
pub mod template;
pub mod text;
pub mod writer;
