//! Edits, and their history.
pub mod command;
pub mod error;
pub mod json;
pub mod macros;
pub mod project;
pub mod session;
pub mod undo;
