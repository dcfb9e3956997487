//! What is known of the media of each track.
pub mod index;
pub mod tree;
