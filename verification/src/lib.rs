//! A verified library for a keyboard-driven video editor: the timeline model,
//! its projection onto a playback graph, motions, edit history, preview pacing
//! and the terminal renderer.
#![allow(unused_imports)]

pub mod analysis;
pub mod class;
pub mod cmd;
pub mod frames;
pub mod mlt;
pub mod model;
pub mod motion;
pub mod pack;
pub mod present;
pub mod text;
pub mod tui;
