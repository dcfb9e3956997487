//! Why a motion or a text object has no target.
use vstd::prelude::*;
use vstd::string::*;

use crate::class::ErrorClass;
use crate::text::decimal;
use crate::text::join;
use crate::text::join3;
use crate::text::push_decimal;

verus! {

/// A motion or text object that could not resolve to a target.
#[derive(Debug, PartialEq, Eq)]
pub enum MotionError {
    NoJumpPoint,
    NoBoundary,
    NoClipUnderPlayhead { track: String },
    NoMarker,
    NoSuchMark(char),
    NoSuchTrack(String),
    NoTrackThere,
    NoMatchingEdit { frame: u64 },
    NoSegment,
    NoPredicateMatch,
    UnresolvedObject(char),
}

/// The contents of a [`MotionError`].
pub enum Refusal {
    NoJumpPoint,
    NoBoundary,
    NoClipUnderPlayhead(Seq<char>),
    NoMarker,
    NoSuchMark(char),
    NoSuchTrack(Seq<char>),
    NoTrackThere,
    NoMatchingEdit(u64),
    NoSegment,
    NoPredicateMatch,
    UnresolvedObject(char),
}

impl View for MotionError {
    type V = Refusal;

    open spec fn view(&self) -> Refusal {
        match self {
            MotionError::NoJumpPoint => Refusal::NoJumpPoint,
            MotionError::NoBoundary => Refusal::NoBoundary,
            MotionError::NoClipUnderPlayhead { track } => Refusal::NoClipUnderPlayhead(track@),
            MotionError::NoMarker => Refusal::NoMarker,
            MotionError::NoSuchMark(c) => Refusal::NoSuchMark(*c),
            MotionError::NoSuchTrack(t) => Refusal::NoSuchTrack(t@),
            MotionError::NoTrackThere => Refusal::NoTrackThere,
            MotionError::NoMatchingEdit { frame } => Refusal::NoMatchingEdit(*frame),
            MotionError::NoSegment => Refusal::NoSegment,
            MotionError::NoPredicateMatch => Refusal::NoPredicateMatch,
            MotionError::UnresolvedObject(c) => Refusal::UnresolvedObject(*c),
        }
    }
}

/// The sentence that describes a refusal.
pub open spec fn sentence(r: Refusal) -> Seq<char> {
    match r {
        Refusal::NoJumpPoint => "there is no jump point in that direction"@,
        Refusal::NoBoundary => "there is no clip boundary in that direction"@,
        Refusal::NoClipUnderPlayhead(track) => "there is no clip under the playhead on track "@
            + track,
        Refusal::NoMarker => "there is no marker in that direction"@,
        Refusal::NoSuchMark(c) => "mark '"@ + seq![c] + "' is not set"@,
        Refusal::NoSuchTrack(track) => "track "@ + track + " does not exist"@,
        Refusal::NoTrackThere => "there is no track in that direction"@,
        Refusal::NoMatchingEdit(frame) => "there is no matching edit point at frame "@ + decimal(
            frame as nat,
        ),
        Refusal::NoSegment => "no visual selection to use as a segment"@,
        Refusal::NoPredicateMatch => "nothing on this track matches that condition"@,
        Refusal::UnresolvedObject(c) => "the text object '"@ + seq![c]
            + "' is defined in config and only the editor can resolve it"@,
    }
}

fn with_char(before: &str, c: char, after: &str) -> (s: String)
    ensures
        s@ == before@ + seq![c] + after@,
{
    let mut s = before.to_owned();
    s.push(c);
    assert(s@ =~= before@ + seq![c]);
    s.append(after);
    s
}

impl MotionError {
    /// A motion that cannot land is the user's to correct.
    pub fn class(&self) -> (c: ErrorClass)
        ensures
            c == ErrorClass::User,
    {
        ErrorClass::User
    }

    pub fn user_message(&self) -> (s: String)
        ensures
            s@ == sentence(self@),
    {
        match self {
            MotionError::NoJumpPoint => "there is no jump point in that direction".to_owned(),
            MotionError::NoBoundary => "there is no clip boundary in that direction".to_owned(),
            MotionError::NoClipUnderPlayhead { track } => join(
                "there is no clip under the playhead on track ",
                track.as_str(),
            ),
            MotionError::NoMarker => "there is no marker in that direction".to_owned(),
            MotionError::NoSuchMark(c) => with_char("mark '", *c, "' is not set"),
            MotionError::NoSuchTrack(t) => join3("track ", t.as_str(), " does not exist"),
            MotionError::NoTrackThere => "there is no track in that direction".to_owned(),
            MotionError::NoMatchingEdit { frame } => {
                let mut s = "there is no matching edit point at frame ".to_owned();
                push_decimal(&mut s, *frame);
                s
            },
            MotionError::NoSegment => "no visual selection to use as a segment".to_owned(),
            MotionError::NoPredicateMatch => "nothing on this track matches that condition".to_owned(),
            MotionError::UnresolvedObject(c) => with_char(
                "the text object '",
                *c,
                "' is defined in config and only the editor can resolve it",
            ),
        }
    }
}

} // verus!
