//! What can go wrong executing, undoing or replaying an edit.
use vstd::prelude::*;
use vstd::string::*;

use crate::class::ErrorClass;
use crate::model::Frame;
use crate::model::TrackId;
use crate::text::decimal;
use crate::text::join;
use crate::text::push_decimal;

verus! {

/// Why the timeline rejected an edit.
#[derive(Clone, Copy, Debug, PartialEq, Eq, Structural)]
pub enum CoreError {
    /// A clip cannot be empty.
    ZeroDuration,
    NoSuchTrack(TrackId),
    /// No clip has `Frame` strictly inside it.
    NothingToSplit(Frame),
    /// No two clips that belong together meet at `Frame`.
    NothingToJoin(Frame),
    /// Every clip id has been used.
    OutOfIds,
}

/// The sentence that describes a rejection.
pub open spec fn core_sentence(e: CoreError) -> Seq<char> {
    match e {
        CoreError::ZeroDuration => "a clip must be at least one frame long"@,
        CoreError::NoSuchTrack(id) => "there is no track "@ + decimal(id.0 as nat),
        CoreError::NothingToSplit(f) => "there is no clip to split at frame "@ + decimal(f.0 as nat),
        CoreError::NothingToJoin(f) => "there is no cut to join at frame "@ + decimal(f.0 as nat),
        CoreError::OutOfIds => "every clip id has been used"@,
    }
}

fn with_count(before: &str, n: u64) -> (s: String)
    ensures
        s@ == before@ + decimal(n as nat),
{
    let mut s = before.to_owned();
    push_decimal(&mut s, n);
    s
}

impl CoreError {
    pub fn message(&self) -> (s: String)
        ensures
            s@ == core_sentence(*self),
    {
        match self {
            CoreError::ZeroDuration => "a clip must be at least one frame long".to_owned(),
            CoreError::NoSuchTrack(id) => with_count("there is no track ", id.0),
            CoreError::NothingToSplit(f) => with_count("there is no clip to split at frame ", f.0),
            CoreError::NothingToJoin(f) => with_count("there is no cut to join at frame ", f.0),
            CoreError::OutOfIds => "every clip id has been used".to_owned(),
        }
    }

    /// A rejected edit is the user's to correct.
    pub fn class(&self) -> (c: ErrorClass)
        ensures
            c == ErrorClass::User,
    {
        ErrorClass::User
    }
}

/// What can go wrong with a command or with the history.
#[derive(Debug, PartialEq, Eq)]
pub enum CmdError {
    /// The timeline rejected the edit; nothing was changed.
    Core(CoreError),
    NothingToUndo,
    NothingToRedo,
    NothingToRepeat,
    NoSuchMacro(char),
    NotRecording,
    AlreadyRecording(char),
    /// A recorded edit could not be replayed.
    ReplayFailed(String),
}

/// The contents of a [`CmdError`].
pub enum CmdErrorView {
    Core(CoreError),
    NothingToUndo,
    NothingToRedo,
    NothingToRepeat,
    NoSuchMacro(char),
    NotRecording,
    AlreadyRecording(char),
    ReplayFailed(Seq<char>),
}

impl View for CmdError {
    type V = CmdErrorView;

    open spec fn view(&self) -> CmdErrorView {
        match self {
            CmdError::Core(e) => CmdErrorView::Core(*e),
            CmdError::NothingToUndo => CmdErrorView::NothingToUndo,
            CmdError::NothingToRedo => CmdErrorView::NothingToRedo,
            CmdError::NothingToRepeat => CmdErrorView::NothingToRepeat,
            CmdError::NoSuchMacro(c) => CmdErrorView::NoSuchMacro(*c),
            CmdError::NotRecording => CmdErrorView::NotRecording,
            CmdError::AlreadyRecording(c) => CmdErrorView::AlreadyRecording(*c),
            CmdError::ReplayFailed(s) => CmdErrorView::ReplayFailed(s@),
        }
    }
}

/// The sentence that describes an error.
pub open spec fn cmd_sentence(e: CmdErrorView) -> Seq<char> {
    match e {
        CmdErrorView::Core(c) => core_sentence(c),
        CmdErrorView::NothingToUndo => "already at the oldest change"@,
        CmdErrorView::NothingToRedo => "already at the newest change"@,
        CmdErrorView::NothingToRepeat => "there is no edit to repeat"@,
        CmdErrorView::NoSuchMacro(c) => "register "@ + seq![c] + " holds no macro"@,
        CmdErrorView::NotRecording => "no macro is being recorded"@,
        CmdErrorView::AlreadyRecording(c) => "a macro is already being recorded into register "@
            + seq![c],
        CmdErrorView::ReplayFailed(s) => "the edit history is inconsistent and could not be replayed: "@
            + s,
    }
}

impl CmdError {
    /// A history that cannot be replayed is not to be trusted; everything else
    /// is the user's to correct.
    pub fn class(&self) -> (c: ErrorClass)
        ensures
            c == if self@ is ReplayFailed {
                ErrorClass::Corruption
            } else {
                ErrorClass::User
            },
    {
        match self {
            CmdError::ReplayFailed(_) => ErrorClass::Corruption,
            CmdError::Core(e) => e.class(),
            _ => ErrorClass::User,
        }
    }

    pub fn user_message(&self) -> (s: String)
        ensures
            s@ == cmd_sentence(self@),
    {
        match self {
            CmdError::Core(e) => e.message(),
            CmdError::NothingToUndo => "already at the oldest change".to_owned(),
            CmdError::NothingToRedo => "already at the newest change".to_owned(),
            CmdError::NothingToRepeat => "there is no edit to repeat".to_owned(),
            CmdError::NoSuchMacro(c) => {
                let mut s = "register ".to_owned();
                s.push(*c);
                s.append(" holds no macro");
                assert(s@ =~= cmd_sentence(self@));
                s
            },
            CmdError::NotRecording => "no macro is being recorded".to_owned(),
            CmdError::AlreadyRecording(c) => {
                let mut s = "a macro is already being recorded into register ".to_owned();
                s.push(*c);
                assert(s@ =~= cmd_sentence(self@));
                s
            },
            CmdError::ReplayFailed(reason) => join(
                "the edit history is inconsistent and could not be replayed: ",
                reason.as_str(),
            ),
        }
    }
}

} // verus!
