//! A personal note index: note records, the query predicate over them,
//! relative-path arithmetic, and the read-modify-write operations on the
//! in-memory cache.
//!
//! A note holds an identifier, a title, a set of tags and the path of the
//! file with its text. The cache holds one note for each identifier. A
//! query combines up to four criteria; listing, dropping and exporting all
//! choose their notes with it.

pub mod cache;
pub mod error;
pub mod note;
pub mod number;
pub mod ops;
pub mod path;
pub mod pattern;
pub mod query;
pub mod tags;
pub mod text;

pub use crate::cache::Cache;
pub use crate::error::{print_error, Error};
pub use crate::note::Note;
pub use crate::query::Query;
pub use crate::tags::Tags;
