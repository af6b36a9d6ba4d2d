//! A line-oriented task store: the verified core of a small command-line
//! todo-list manager.
//!
//! The store's persisted form is a flat text file, one record per line, in
//! the shape `<index>. <text>[ -s]`, where the trailing ` -s` marks a record
//! as done.  This crate holds the whole file's content in memory as bytes and
//! verifies every operation on it: assigning indices, appending, removing and
//! re-marking records by index, and rendering the list for display.  File and
//! terminal I/O stay outside the crate; callers hand content in and take the
//! rewritten content back.

pub mod bytes;
pub mod laws;
pub mod lines;
pub mod model;
pub mod numerals;
pub mod store;
