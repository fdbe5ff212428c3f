//! A sparse columnar table: named columns of optional cells, all of one
//! length, with row views, compaction, concatenation and a `;`-separated
//! text form.

pub mod codec;
pub mod entry;
pub mod format;
pub mod index;
pub mod json;
pub mod laws;
pub mod model;
pub mod ssv;
pub mod table;
pub mod text;

pub use entry::{TableEntry, TableEntryMut};
pub use format::CSVFormatable;
pub use json::ParseError;
pub use ssv::{CSVEntry, CSVEntryMut, SSVTable};
pub use table::{TableError, TableMap};
