//! What the terminal is asked to draw: every column, tick and label has been
//! decided before it gets here.
use vstd::prelude::*;

use crate::model::Frame;
use crate::model::TrackId;
use crate::model::TrackKind;

verus! {

/// A mark on the ruler.
#[derive(Clone, Copy, Debug, PartialEq, Eq, Structural)]
pub struct Tick {
    pub column: u32,
    pub major: bool,
}

/// A number on the ruler.
#[derive(Debug, PartialEq, Eq)]
pub struct Label {
    pub offset: u32,
    pub text: String,
}

/// One clip of a lane.
#[derive(Debug, PartialEq, Eq)]
pub struct ClipView {
    pub label: String,
    /// The first and the last column.
    pub columns: (u32, u32),
    pub offline: bool,
    /// Whether the clip is edited together with others.
    pub linked: bool,
}

/// One lane.
#[derive(Debug, PartialEq, Eq)]
pub struct TrackView {
    pub id: TrackId,
    pub name: String,
    pub kind: TrackKind,
    pub muted: bool,
    pub solo: bool,
    pub locked: bool,
    pub focused: bool,
    pub silenced_by_solo: bool,
    pub clips: Vec<ClipView>,
    /// The level of each column, where the lane has sound.
    pub waveform: Vec<u8>,
}

/// The region that is selected.
#[derive(Debug, PartialEq, Eq)]
pub struct Selection {
    pub tracks: Vec<TrackId>,
    /// The first and the last column, where the region is on screen.
    pub columns: Option<(u32, u32)>,
}

/// Where the playhead is.
#[derive(Clone, Copy, Debug, PartialEq, Eq, Structural)]
pub struct PlayheadView {
    pub frame: Frame,
    /// Its column, where it is on screen.
    pub column: Option<u32>,
}

/// What a stretch of a panel's text is.
#[derive(Clone, Copy, Debug, PartialEq, Eq, Structural)]
pub enum PanelRole {
    Normal,
    Key,
    Accent,
    Warning,
}

/// A stretch of a panel's text.
#[derive(Debug, PartialEq, Eq)]
pub struct PanelSpan {
    pub text: String,
    pub role: PanelRole,
}

/// What a panel shows.
#[derive(Debug, PartialEq, Eq)]
pub enum PanelContent {
    Lines(Vec<Vec<PanelSpan>>),
    /// A picture, which a terminal only names.
    Pixels { width: u32, height: u32 },
}

/// Where a panel is, in cells of the editing area.
#[derive(Clone, Copy, Debug, PartialEq, Eq, Structural)]
pub struct PanelRect {
    pub row: u32,
    pub column: u32,
    pub rows: u32,
    pub columns: u32,
}

/// A panel over the editing area.
#[derive(Debug, PartialEq, Eq)]
pub struct PanelView {
    pub title: Option<String>,
    pub rect: PanelRect,
    pub focus: bool,
    pub content: PanelContent,
}

/// The line in which a command is typed.
#[derive(Debug, PartialEq, Eq)]
pub struct CommandLineView {
    pub buffer: String,
    pub completions: Vec<String>,
}

/// Work in progress.
#[derive(Debug, PartialEq, Eq)]
pub struct JobView {
    pub label: String,
    pub percent: u64,
}

#[derive(Clone, Copy, Debug, PartialEq, Eq, Structural)]
pub enum Severity {
    Info,
    Warning,
    Error,
}

/// Something to tell.
#[derive(Debug, PartialEq, Eq)]
pub struct Message {
    pub text: String,
    pub severity: Severity,
}

/// One screen.
#[derive(Debug, PartialEq, Eq)]
pub struct ViewState {
    pub mode_line: String,
    /// The register that is being recorded.
    pub recording: Option<char>,
    pub job: Option<JobView>,
    pub message: Option<Message>,
    /// The keys of a command that is not complete yet.
    pub pending: String,
    pub playhead: PlayheadView,
    pub duration: Frame,
    pub tracks: Vec<TrackView>,
    pub ticks: Vec<Tick>,
    pub selection: Option<Selection>,
    pub panels: Vec<PanelView>,
    pub command_line: Option<CommandLineView>,
}

/// What a chosen file will be used for.
#[derive(Clone, Copy, Debug, PartialEq, Eq, Structural)]
pub enum PickerIntent {
    Insert,
    Append,
    Replace,
}

/// A file that can be chosen.
#[derive(Debug, PartialEq, Eq)]
pub struct PickerEntry {
    pub label: String,
    pub is_dir: bool,
}

/// The list from which a file is chosen.
#[derive(Debug, PartialEq, Eq)]
pub struct PickerView {
    pub intent: PickerIntent,
    pub query: String,
    pub visible: Vec<PickerEntry>,
    pub selected: usize,
}

/// What is open over the timeline.
#[derive(Clone, Copy, Debug)]
pub struct Overlay<'a> {
    pub picker: Option<&'a PickerView>,
    /// The text of a subtitle that is being typed.
    pub subtitle: Option<&'a String>,
}

impl<'a> Overlay<'a> {
    /// Whether anything is open.
    pub fn is_open(&self) -> (b: bool)
        ensures
            b == (self.picker is Some || self.subtitle is Some),
    {
        self.picker.is_some() || self.subtitle.is_some()
    }
}

} // verus!
