//! Motions and text objects: where the playhead goes, and what an edit covers.
pub mod error;
pub mod jump;
pub mod motion;
pub mod object;
pub mod predicate;
pub mod target;
