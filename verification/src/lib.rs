//! Organising resource files that are grouped into qualifier buckets.
//!
//! A resource type such as `drawable` owns the directories `drawable`,
//! `drawable-mdpi`, `drawable-land` and so on. The library finds the files of
//! one type below a set of sources, groups them by canonical name, renders the
//! table of buckets per name and plans the file operations of a copy or move.
//!
//! The library touches no file. A collection asks its caller what it needs to
//! know of the directory tree, and a copy or move is handed back as a list of
//! file operations.

pub mod classify;
pub mod collect;
pub mod entries;
pub mod error;
pub mod list;
pub mod model;
pub mod path;
pub mod place;
pub mod sanitize;
pub mod text;

pub use classify::{valid_res, valid_res_path};
pub use collect::{collect_entries, Answer, Collector, Request};
pub use entries::{Entries, Entry};
pub use error::Error;
pub use list::ls;
pub use place::{cp, cp_or_mv, mv, Action};
pub use sanitize::{sanitize, sanitize_name};
