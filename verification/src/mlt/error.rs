//! Errors of the playback framework, and what callers learn of them.
use vstd::prelude::*;
use vstd::string::*;

use crate::class::ErrorClass;
use crate::text::decimal;
use crate::text::decimal_string;
use crate::text::join3;
use crate::text::push_signed;
use crate::text::signed;

verus! {

/// What went wrong inside the playback framework.
#[derive(Debug, PartialEq, Eq)]
pub enum MltError {
    Init,
    NoProducer { service: String, resource: String },
    NoFilter { service: String },
    NoConsumer { service: String },
    PlaylistOp { code: i32 },
    AttachFailed,
    ConnectFailed,
    ConsumerStart,
    ListenFailed,
    NoFrame,
    NoImage,
    WrongFormat { format: i32 },
    BadString { value: String },
}

/// A text between quotes, with what cannot be shown escaped.
pub uninterp spec fn quoted_view(s: Seq<char>) -> Seq<char>;

/// `format!` with `{:?}` on a string: the text between quotes, with quotes,
/// control characters and the like escaped. The escapes are not spelled out.
#[verifier::external_body]
fn quoted(s: &str) -> (q: String)
    ensures
        q@ == quoted_view(s@),
{
    format!("{:?}", s)
}

/// The sentence that describes an error.
pub open spec fn message_view(e: MltError) -> Seq<char> {
    match e {
        MltError::Init => "the MLT framework could not be initialised"@,
        MltError::NoProducer { service, resource } => "MLT has no "@ + service@
            + " service for "@ + resource@,
        MltError::NoFilter { service } => "MLT has no "@ + service@ + " filter"@,
        MltError::NoConsumer { service } => "MLT has no "@ + service@ + " consumer"@,
        MltError::PlaylistOp { code } => "the playlist operation failed (code "@ + signed(
            code as int,
        ) + ")"@,
        MltError::AttachFailed => "the filter could not be attached"@,
        MltError::ConnectFailed => "the consumer could not be connected"@,
        MltError::ConsumerStart => "the consumer would not start"@,
        MltError::ListenFailed => "the event listener could not be registered"@,
        MltError::NoFrame => "no frame was produced"@,
        MltError::NoImage => "no image was produced for this frame"@,
        MltError::WrongFormat { format } => "the frame came back in image format "@ + signed(
            format as int,
        ) + " rather than RGBA"@,
        MltError::BadString { value } => "the value "@ + quoted_view(value@)
            + " cannot be passed to MLT"@,
    }
}

fn with_number(before: &str, n: i32, after: &str) -> (s: String)
    ensures
        s@ == before@ + signed(n as int) + after@,
{
    let mut s = before.to_owned();
    push_signed(&mut s, n);
    s.append(after);
    s
}

impl MltError {
    /// The sentence that describes the error.
    pub fn message(&self) -> (s: String)
        ensures
            s@ == message_view(*self),
    {
        match self {
            MltError::Init => "the MLT framework could not be initialised".to_owned(),
            MltError::NoProducer { service, resource } => {
                let mut s = join3("MLT has no ", service.as_str(), " service for ");
                s.append(resource.as_str());
                s
            },
            MltError::NoFilter { service } => join3("MLT has no ", service.as_str(), " filter"),
            MltError::NoConsumer { service } => join3("MLT has no ", service.as_str(), " consumer"),
            MltError::PlaylistOp { code } => with_number(
                "the playlist operation failed (code ",
                *code,
                ")",
            ),
            MltError::AttachFailed => "the filter could not be attached".to_owned(),
            MltError::ConnectFailed => "the consumer could not be connected".to_owned(),
            MltError::ConsumerStart => "the consumer would not start".to_owned(),
            MltError::ListenFailed => "the event listener could not be registered".to_owned(),
            MltError::NoFrame => "no frame was produced".to_owned(),
            MltError::NoImage => "no image was produced for this frame".to_owned(),
            MltError::WrongFormat { format } => with_number(
                "the frame came back in image format ",
                *format,
                " rather than RGBA",
            ),
            MltError::BadString { value } => {
                let q = quoted(value.as_str());
                join3("the value ", q.as_str(), " cannot be passed to MLT")
            },
        }
    }

    /// The error as callers of the backend see it, with its sentence.
    pub fn into_backend(self) -> (e: BackendError)
        ensures
            e.reason_view() == message_view(self),
            e.kind() == match self {
                MltError::NoProducer { .. } => BackendErrorKind::Probe,
                MltError::NoFrame => BackendErrorKind::Decode,
                MltError::NoImage => BackendErrorKind::Decode,
                MltError::WrongFormat { .. } => BackendErrorKind::Decode,
                MltError::Init => BackendErrorKind::Unavailable,
                MltError::NoConsumer { .. } => BackendErrorKind::Unavailable,
                MltError::ConsumerStart => BackendErrorKind::Unavailable,
                MltError::ConnectFailed => BackendErrorKind::Unavailable,
                MltError::ListenFailed => BackendErrorKind::Unavailable,
                MltError::PlaylistOp { .. } => BackendErrorKind::Projection,
                MltError::AttachFailed => BackendErrorKind::Projection,
                MltError::NoFilter { .. } => BackendErrorKind::Projection,
                MltError::BadString { .. } => BackendErrorKind::Projection,
            },
            self matches MltError::NoProducer { service, resource } ==> (
            e matches BackendError::Probe { path, reason } && path@ == resource@),
            e matches BackendError::Decode { frame, reason } ==> frame == 0,
    {
        let reason = self.message();
        match self {
            MltError::NoProducer { resource, .. } => BackendError::Probe { path: resource, reason },
            MltError::NoFrame => BackendError::Decode { frame: 0, reason },
            MltError::NoImage => BackendError::Decode { frame: 0, reason },
            MltError::WrongFormat { .. } => BackendError::Decode { frame: 0, reason },
            MltError::Init => BackendError::Unavailable { reason },
            MltError::NoConsumer { .. } => BackendError::Unavailable { reason },
            MltError::ConsumerStart => BackendError::Unavailable { reason },
            MltError::ConnectFailed => BackendError::Unavailable { reason },
            MltError::ListenFailed => BackendError::Unavailable { reason },
            MltError::PlaylistOp { .. } => BackendError::Projection { reason },
            MltError::AttachFailed => BackendError::Projection { reason },
            MltError::NoFilter { .. } => BackendError::Projection { reason },
            MltError::BadString { .. } => BackendError::Projection { reason },
        }
    }
}

/// What went wrong, as callers of the backend see it.
#[derive(Debug, PartialEq, Eq)]
pub enum BackendError {
    /// A file could not be opened.
    Probe { path: String, reason: String },
    /// A file is not there.
    Offline { path: String },
    /// A picture could not be made.
    Decode { frame: u64, reason: String },
    /// The framework cannot be used.
    Unavailable { reason: String },
    /// The timeline could not be turned into a graph.
    Projection { reason: String },
    /// A file could not be written.
    Render { reason: String },
    /// A position has no picture.
    Seek { frame: u64 },
    /// A preview was started while one runs.
    PreviewAlreadyRunning,
    /// A preview was steered while none runs.
    PreviewNotRunning,
}

/// The variants of a [`BackendError`].
#[derive(Clone, Copy, Debug, PartialEq, Eq, Structural)]
pub enum BackendErrorKind {
    Probe,
    Offline,
    Decode,
    Unavailable,
    Projection,
    Render,
    Seek,
    PreviewAlreadyRunning,
    PreviewNotRunning,
}

impl BackendError {
    pub open spec fn kind(self) -> BackendErrorKind {
        match self {
            BackendError::Probe { .. } => BackendErrorKind::Probe,
            BackendError::Offline { .. } => BackendErrorKind::Offline,
            BackendError::Decode { .. } => BackendErrorKind::Decode,
            BackendError::Unavailable { .. } => BackendErrorKind::Unavailable,
            BackendError::Projection { .. } => BackendErrorKind::Projection,
            BackendError::Render { .. } => BackendErrorKind::Render,
            BackendError::Seek { .. } => BackendErrorKind::Seek,
            BackendError::PreviewAlreadyRunning => BackendErrorKind::PreviewAlreadyRunning,
            BackendError::PreviewNotRunning => BackendErrorKind::PreviewNotRunning,
        }
    }

    /// The sentence that an error carries; for a missing file, its path.
    pub open spec fn reason_view(self) -> Seq<char> {
        match self {
            BackendError::Probe { path, reason } => reason@,
            BackendError::Offline { path } => path@,
            BackendError::Decode { frame, reason } => reason@,
            BackendError::Unavailable { reason } => reason@,
            BackendError::Projection { reason } => reason@,
            BackendError::Render { reason } => reason@,
            BackendError::Seek { frame } => "frame "@ + decimal(frame as nat)
                + " could not be read"@,
            BackendError::PreviewAlreadyRunning => "a preview is already running"@,
            BackendError::PreviewNotRunning => "no preview is running"@,
        }
    }

    /// Playback that fails never endangers the project.
    pub fn class(&self) -> (c: ErrorClass)
        ensures
            c == ErrorClass::Recoverable,
    {
        ErrorClass::Recoverable
    }

    /// What the user is shown.
    pub fn user_message(&self) -> (s: String)
        ensures
            s@ == self.reason_view(),
    {
        match self {
            BackendError::Probe { reason, .. } => reason.clone(),
            BackendError::Offline { path } => path.clone(),
            BackendError::Decode { reason, .. } => reason.clone(),
            BackendError::Unavailable { reason } => reason.clone(),
            BackendError::Projection { reason } => reason.clone(),
            BackendError::Render { reason } => reason.clone(),
            BackendError::Seek { frame } => {
                let n = decimal_string(*frame);
                join3("frame ", n.as_str(), " could not be read")
            },
            BackendError::PreviewAlreadyRunning => "a preview is already running".to_owned(),
            BackendError::PreviewNotRunning => "no preview is running".to_owned(),
        }
    }
}

} // verus!
