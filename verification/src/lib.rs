//! Verified core of a directory-bookmarking tool.
//!
//! A [`store::BookmarkStore`] keeps `(category, tag) -> path` associations,
//! ordered by key, with unique keys and unique paths.  The surrounding
//! command-line shell resolves filesystem paths and persists the table;
//! everything that decides what the table holds lives here and is verified.

pub mod book;
pub mod order;
pub mod store;
