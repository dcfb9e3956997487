//! Plugins: how they are named, where they are installed, and what they are
//! pinned to. Fetching them is left to the program around this.
pub mod command;
pub mod error;
pub mod job;
pub mod list;
pub mod lock;
pub mod paths;
pub mod plan;
pub mod spec;
