//! The terminal: what is drawn in its rows, and what its keys mean.
pub mod base64;
pub mod bytes;
pub mod encoder;
pub mod image;
pub mod input;
pub mod lane;
pub mod palette;
pub mod panel;
pub mod placement;
pub mod preview;
pub mod probe;
pub mod render;
pub mod screen;
pub mod shell;
pub mod sixel;
pub mod style;
pub mod view;
