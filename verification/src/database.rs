//! A paged table of rows that could sit under the index: rows of a fixed
//! width, pages that hold them as bytes, and the counter that numbers
//! them.

pub mod cursor;
pub mod deserializer;
pub mod indexer;
pub mod page;
pub mod pager;
pub mod row_data;
pub mod table;
