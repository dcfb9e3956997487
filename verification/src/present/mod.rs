//! Showing the preview: fitting a picture to a surface, pacing it against the
//! sound, and composing what a host draws.
pub mod adaptive;
pub mod error;
pub mod fit;
pub mod gpu;
pub mod headless;
pub mod overlay;
pub mod pacing;
pub mod presenter;
