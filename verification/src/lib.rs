//! A transactional table format over immutable columnar files: an append-only,
//! versioned log of table changes plus operations that read, prune, rewrite and
//! garbage-collect the underlying data files while preserving atomicity and
//! snapshot consistency.

pub mod error;
pub mod fileview;
pub mod log;
pub mod maintain;
pub mod merge;
pub mod paths;
pub mod record;
pub mod rows;
pub mod skipping;
pub mod stats;
pub mod table;
pub mod zorder;
