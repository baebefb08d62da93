//! Reads the Netscape-format bookmark file that Chrome, Firefox, and Safari
//! all produce from "Export Bookmarks", and reports on what is in it: how
//! many bookmarks, how deep the folder tree goes, which URLs were saved more
//! than once, and which folders are empty.
//!
//! This is a library, not a program: wire `parse`, `analyze`, and `render`
//! together in your own code.
pub mod format;
pub mod json;
pub mod model;
pub mod parse;
pub mod report;
pub mod text;

pub use format::{render, OutputFormat};
pub use model::{Bookmark, Folder};
pub use parse::{parse, ParseError};
pub use report::{analyze, Report};
