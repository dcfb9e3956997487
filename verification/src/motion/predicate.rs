//! Conditions on media that a motion can search for.
use vstd::prelude::*;

use crate::model::Frame;
use crate::model::TrackId;
use crate::motion::target::Direction;

verus! {

/// A condition on the media of a track. Levels are thousandths of a decibel.
#[derive(Debug, PartialEq, Eq)]
pub enum Predicate {
    AudioPeak { track: TrackId, threshold_db: i64 },
    Silence { track: TrackId, min_duration_ms: u32, threshold_db: i64 },
    SceneChange { track: TrackId },
    Tagged { track: TrackId, tag: String },
}

impl Predicate {
    /// The track that is searched.
    pub open spec fn searched(self) -> TrackId {
        match self {
            Predicate::AudioPeak { track, .. } => track,
            Predicate::Silence { track, .. } => track,
            Predicate::SceneChange { track } => track,
            Predicate::Tagged { track, .. } => track,
        }
    }

    pub fn track(&self) -> (t: TrackId)
        ensures
            t == self.searched(),
    {
        match self {
            Predicate::AudioPeak { track, .. } => *track,
            Predicate::Silence { track, .. } => *track,
            Predicate::SceneChange { track } => *track,
            Predicate::Tagged { track, .. } => *track,
        }
    }
}

impl Clone for Predicate {
    fn clone(&self) -> (c: Self)
        ensures
            c == *self,
    {
        match self {
            Predicate::AudioPeak { track, threshold_db } => Predicate::AudioPeak {
                track: *track,
                threshold_db: *threshold_db,
            },
            Predicate::Silence { track, min_duration_ms, threshold_db } => Predicate::Silence {
                track: *track,
                min_duration_ms: *min_duration_ms,
                threshold_db: *threshold_db,
            },
            Predicate::SceneChange { track } => Predicate::SceneChange { track: *track },
            Predicate::Tagged { track, tag } => Predicate::Tagged {
                track: *track,
                tag: tag.clone(),
            },
        }
    }
}

/// The answer to a search. `Pending` means that it is not known yet: a track
/// that is only partly analysed must not answer `NoMatch`.
#[derive(Clone, Copy, Debug, PartialEq, Eq, Structural)]
pub enum Answer {
    Found(Frame),
    NoMatch,
    Pending,
}

/// An index that answers searches.
pub trait PredicateIndex {
    /// What the index knows.
    spec fn answer(&self, predicate: Predicate, from: Frame, dir: Direction) -> Answer;

    /// The first match strictly beyond `from`.
    fn find(&self, predicate: &Predicate, from: Frame, dir: Direction) -> (a: Answer)
        ensures
            a == self.answer(*predicate, from, dir),
    ;
}

/// The index used before anything is analysed.
#[derive(Clone, Copy, Debug)]
pub struct NoAnalysis;

impl PredicateIndex for NoAnalysis {
    open spec fn answer(&self, predicate: Predicate, from: Frame, dir: Direction) -> Answer {
        Answer::Pending
    }

    fn find(&self, predicate: &Predicate, from: Frame, dir: Direction) -> (a: Answer) {
        Answer::Pending
    }
}

} // verus!
