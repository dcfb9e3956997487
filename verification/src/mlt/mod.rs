//! The playback graph: what a timeline becomes, and how the graph is driven.
pub mod cache;
pub mod convert;
pub mod error;
pub mod export;
pub mod graph;
pub mod hwaccel;
pub mod parallel;
pub mod patch;
pub mod prefetch;
pub mod projection;
pub mod queue;
pub mod run;
pub mod scrub;
pub mod source;
pub mod stills;
pub mod transitions;
pub mod transport;
