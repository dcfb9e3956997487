//! The timeline: tracks of clips, their media, transitions, marks and markers.
use vstd::prelude::*;

verus! {

/// A frame number, or a count of frames.
#[derive(Clone, Copy, Debug, PartialEq, Eq, PartialOrd, Ord, Hash, Structural)]
pub struct Frame(pub u64);

impl Frame {
    #[verifier::when_used_as_spec(spec_get)]
    pub fn get(self) -> (n: u64)
        ensures
            n == self.0,
    {
        self.0
    }

    pub open spec fn spec_get(self) -> u64 {
        self.0
    }
}

/// Identifies a clip for the life of a project.
#[derive(Clone, Copy, Debug, PartialEq, Eq, PartialOrd, Ord, Hash, Structural)]
pub struct ClipId(pub u64);

/// Identifies a track for the life of a project.
#[derive(Clone, Copy, Debug, PartialEq, Eq, PartialOrd, Ord, Hash, Structural)]
pub struct TrackId(pub u64);

/// Identifies a link group: clips that are edited together.
#[derive(Clone, Copy, Debug, PartialEq, Eq, PartialOrd, Ord, Hash, Structural)]
pub struct GroupId(pub u64);

/// What a track carries.
#[derive(Clone, Copy, Debug, PartialEq, Eq, Structural)]
pub enum TrackKind {
    Video,
    Audio,
    Overlay,
    Text,
}

/// Frames per second, as a fraction.
#[derive(Clone, Copy, Debug, PartialEq, Eq, Structural)]
pub struct Fps {
    pub num: u32,
    pub den: u32,
}

/// A picture size in pixels.
#[derive(Clone, Copy, Debug, PartialEq, Eq, Structural)]
pub struct Resolution {
    pub width: u32,
    pub height: u32,
}

/// What every track of a timeline is rendered at.
#[derive(Clone, Copy, Debug, PartialEq, Eq, Structural)]
pub struct TimelineProps {
    pub fps: Fps,
    pub resolution: Resolution,
    pub sample_rate: u32,
}

/// A number with four decimals, as sign and ten-thousandths. The sign of a
/// number that rounds to zero is kept.
#[derive(Clone, Copy, Debug, PartialEq, Eq, Structural)]
pub struct Decimal {
    pub negative: bool,
    pub units: u64,
}

/// Where a picture is drawn: an offset, and a size in percent.
#[derive(Clone, Copy, Debug, PartialEq, Eq, Structural)]
pub struct Placement {
    pub x: Decimal,
    pub y: Decimal,
    pub percent: Decimal,
}

/// Adjustments of one clip. `None` leaves the media as it is.
#[derive(Clone, Copy, Debug, PartialEq, Eq, Structural)]
pub struct ClipProps {
    pub gain_db: Option<Decimal>,
    pub fade_in: Frame,
    pub fade_out: Frame,
    pub placement: Option<Placement>,
    pub opacity: Option<Decimal>,
}

/// A media file, and which of its streams a clip plays.
#[derive(Debug, PartialEq, Eq)]
pub struct MediaRef {
    pub path: String,
    pub frames: Frame,
    pub offline: bool,
    pub stream: Option<u32>,
    pub channels: Option<u16>,
}

/// How a cut is softened: a named type over a number of frames.
#[derive(Debug, PartialEq, Eq)]
pub struct Transition {
    pub kind: String,
    pub duration: Frame,
}

impl Transition {
    /// Frames of the overlap that lie before the cut.
    pub open spec fn spec_head(self) -> int {
        self.duration.0 as int / 2
    }

    /// Frames of the overlap that lie after the cut.
    pub open spec fn spec_tail(self) -> int {
        self.duration.0 - self.spec_head()
    }

    pub fn head(&self) -> (n: u64)
        ensures
            n == self.spec_head(),
    {
        self.duration.0 / 2
    }

    pub fn tail(&self) -> (n: u64)
        ensures
            n == self.spec_tail(),
    {
        self.duration.0 - self.duration.0 / 2
    }
}

/// A span of media on a track.
#[derive(Debug, PartialEq, Eq)]
pub struct Clip {
    pub id: ClipId,
    pub label: String,
    pub start: Frame,
    pub duration: Frame,
    pub source_in: Frame,
    pub media: Option<MediaRef>,
    pub text: Option<String>,
    pub props: ClipProps,
    pub group: Option<GroupId>,
    pub transition_in: Option<Transition>,
}

impl Clip {
    /// The clip plays at least one frame, and its spans on the track and in
    /// its source end within the range of a frame number.
    pub open spec fn wf(self) -> bool {
        &&& self.duration.0 >= 1
        &&& self.start.0 + self.duration.0 <= u64::MAX
        &&& self.source_in.0 + self.duration.0 <= u64::MAX
    }

    /// Whether the clip can be placed and played.
    pub fn is_well_formed(&self) -> (ok: bool)
        ensures
            ok == self.wf(),
    {
        self.duration.0 >= 1 && self.start.0 <= u64::MAX - self.duration.0 && self.source_in.0
            <= u64::MAX - self.duration.0
    }

    /// The first frame after the clip.
    pub open spec fn spec_end(self) -> int {
        self.start.0 + self.duration.0
    }

    /// The first source frame after the clip.
    pub open spec fn spec_source_out(self) -> int {
        self.source_in.0 + self.duration.0
    }

    pub fn end(&self) -> (f: Frame)
        requires
            self.wf(),
        ensures
            f.0 == self.spec_end(),
    {
        Frame(self.start.0 + self.duration.0)
    }

    pub fn source_out(&self) -> (f: Frame)
        requires
            self.wf(),
        ensures
            f.0 == self.spec_source_out(),
    {
        Frame(self.source_in.0 + self.duration.0)
    }

    /// Whether `frame` lies inside the clip.
    pub open spec fn covers(self, frame: Frame) -> bool {
        self.start.0 <= frame.0 < self.spec_end()
    }
}

/// One lane of the timeline.
#[derive(Debug, PartialEq, Eq)]
pub struct Track {
    pub id: TrackId,
    pub name: String,
    pub kind: TrackKind,
    pub muted: bool,
    pub solo: bool,
    pub clips: Vec<Clip>,
}

impl Track {
    /// Clips are in order and do not overlap.
    pub open spec fn wf(self) -> bool {
        &&& forall|i: int| 0 <= i < self.clips@.len() ==> (#[trigger] self.clips@[i]).wf()
        &&& forall|i: int, j: int|
            0 <= i < j < self.clips@.len() ==> (#[trigger] self.clips@[i]).spec_end() <= (
            #[trigger] self.clips@[j]).start.0
    }

    /// Whether the clips are well formed, in order and apart.
    pub fn is_well_formed(&self) -> (ok: bool)
        ensures
            ok == self.wf(),
    {
        let n: usize = self.clips.len();
        let mut end: u64 = 0;
        let mut i: usize = 0;
        while i < n
            invariant
                i <= n == self.clips@.len(),
                i > 0 ==> end == self.clips@[i - 1].spec_end(),
                i == 0 ==> end == 0,
                forall|k: int| 0 <= k < i ==> (#[trigger] self.clips@[k]).wf(),
                forall|k: int| 0 <= k < i ==> (#[trigger] self.clips@[k]).spec_end() <= end,
                forall|j: int, k: int|
                    0 <= j < k < i ==> (#[trigger] self.clips@[j]).spec_end() <= (
                    #[trigger] self.clips@[k]).start.0,
            decreases n - i,
        {
            let clip = &self.clips[i];
            if !clip.is_well_formed() {
                assert(!self.clips@[i as int].wf());
                return false;
            }
            if clip.start.0 < end {
                assert(self.clips@[i - 1].spec_end() > self.clips@[i as int].start.0);
                return false;
            }
            end = clip.start.0 + clip.duration.0;
            i = i + 1;
        }
        true
    }

    /// Frames that a transition at the start of clip `index` takes from it.
    pub open spec fn taken_at_start(self, index: int) -> int {
        match self.clips@[index].transition_in {
            Some(t) => t.spec_tail(),
            None => 0,
        }
    }

    /// Frames that a transition at the end of clip `index` takes from it.
    pub open spec fn taken_at_end(self, index: int) -> int {
        if index + 1 < self.clips@.len() {
            match self.clips@[index + 1].transition_in {
                Some(t) => t.spec_head(),
                None => 0,
            }
        } else {
            0
        }
    }

    /// Whether the transition `t` can be played into clip `index`: there is a
    /// cut with the clip before it, each side keeps a frame of its own, the
    /// frames beyond the cut have a number, and media that is online holds them.
    pub open spec fn transition_fits(self, index: int, t: Transition) -> bool {
        &&& 1 <= index < self.clips@.len()
        &&& t.duration.0 >= 1
        &&& self.clips@[index - 1].spec_end() == self.clips@[index].start.0
        &&& self.clips@[index - 1].spec_source_out() + t.spec_tail() <= u64::MAX
        &&& self.taken_at_start(index - 1) + t.spec_head() < self.clips@[index - 1].duration.0
        &&& t.spec_tail() + self.taken_at_end(index) < self.clips@[index].duration.0
        &&& (self.clips@[index - 1].media matches Some(m) ==> m.offline
            || self.clips@[index - 1].spec_source_out() + t.spec_tail() <= m.frames.0)
        &&& (self.clips@[index].media matches Some(m) ==> m.offline || t.spec_head()
            <= self.clips@[index].source_in.0)
    }

    fn start_taken(&self, index: usize) -> (n: u64)
        requires
            index < self.clips@.len(),
        ensures
            n == self.taken_at_start(index as int),
    {
        match &self.clips[index].transition_in {
            Some(t) => t.tail(),
            None => 0,
        }
    }

    fn end_taken(&self, index: usize) -> (n: u64)
        requires
            index < self.clips@.len(),
        ensures
            n == self.taken_at_end(index as int),
    {
        if index < self.clips.len() - 1 {
            match &self.clips[index + 1].transition_in {
                Some(t) => t.head(),
                None => 0,
            }
        } else {
            0
        }
    }

    pub fn check_transition(&self, index: usize, t: &Transition) -> (ok: bool)
        requires
            self.wf(),
        ensures
            ok == self.transition_fits(index as int, *t),
    {
        if index == 0 || index >= self.clips.len() || t.duration.0 == 0 {
            return false;
        }
        let prev = &self.clips[index - 1];
        let clip = &self.clips[index];
        if prev.end() != clip.start {
            return false;
        }
        if prev.source_out().0 > u64::MAX - t.tail() {
            return false;
        }
        let before: u128 = self.start_taken(index - 1) as u128 + t.head() as u128;
        let after: u128 = t.tail() as u128 + self.end_taken(index) as u128;
        if before >= prev.duration.0 as u128 || after >= clip.duration.0 as u128 {
            return false;
        }
        if let Some(m) = &prev.media {
            if !m.offline && prev.source_out().0 as u128 + t.tail() as u128 > m.frames.0 as u128 {
                return false;
            }
        }
        if let Some(m) = &clip.media {
            if !m.offline && t.head() > clip.source_in.0 {
                return false;
            }
        }
        true
    }

    /// The transition played into clip `index`: the one it carries, where that
    /// fits.
    pub open spec fn attached_transition(self, index: int) -> Option<Transition> {
        if 0 <= index < self.clips@.len() {
            match self.clips@[index].transition_in {
                Some(t) => if self.transition_fits(index, t) {
                    Some(t)
                } else {
                    None
                },
                None => None,
            }
        } else {
            None
        }
    }

    /// The transition played into clip `index`.
    pub fn attached(&self, index: usize) -> (t: Option<&Transition>)
        requires
            self.wf(),
        ensures
            match t {
                Some(t) => self.attached_transition(index as int) == Some(*t),
                None => self.attached_transition(index as int) is None,
            },
    {
        if index >= self.clips.len() {
            return None;
        }
        match &self.clips[index].transition_in {
            Some(t) => if self.check_transition(index, t) {
                Some(t)
            } else {
                None
            },
            None => None,
        }
    }

    /// The span of clip `index` with the overlaps at its ends.
    pub open spec fn widened_start(self, index: int) -> int {
        self.clips@[index].start.0 - (match self.attached_transition(index) {
            Some(t) => t.spec_head(),
            None => 0,
        })
    }

    pub open spec fn widened_end(self, index: int) -> int {
        self.clips@[index].spec_end() + (match self.attached_transition(index + 1) {
            Some(t) => t.spec_tail(),
            None => 0,
        })
    }

    /// The span of clip `index` with the overlaps at its ends.
    pub fn transition_range(&self, index: usize) -> (range: (Frame, Frame))
        requires
            self.wf(),
            index < self.clips@.len(),
        ensures
            range.0.0 == self.widened_start(index as int),
            range.1.0 == self.widened_end(index as int),
            range.0.0 <= self.clips@[index as int].start.0,
            range.1.0 >= self.clips@[index as int].spec_end(),
    {
        let count: usize = self.clips.len();
        assert(index < count);
        let clip = &self.clips[index];
        let mut start: u64 = clip.start.0;
        let mut end: u64 = clip.end().0;
        if let Some(t) = self.attached(index) {
            assert(self.clips@[index - 1].wf());
            start = start - t.head();
        }
        if let Some(t) = self.attached(index + 1) {
            assert(self.clips@[index + 1].wf());
            end = end + t.tail();
        }
        (Frame(start), Frame(end))
    }

    /// The clip under `frame`, by its index.
    pub open spec fn covering(self, frame: Frame) -> Option<int> {
        if exists|i: int| 0 <= i < self.clips@.len() && (#[trigger] self.clips@[i]).covers(frame) {
            Some(choose|i: int|
                0 <= i < self.clips@.len() && (#[trigger] self.clips@[i]).covers(frame))
        } else {
            None
        }
    }

    /// At most one clip covers a frame.
    pub proof fn lemma_covering_unique(self, frame: Frame, i: int, j: int)
        requires
            self.wf(),
            0 <= i < self.clips@.len(),
            0 <= j < self.clips@.len(),
            self.clips@[i].covers(frame),
            self.clips@[j].covers(frame),
        ensures
            i == j,
    {
        if i < j {
            assert(self.clips@[i].spec_end() <= self.clips@[j].start.0);
        } else if j < i {
            assert(self.clips@[j].spec_end() <= self.clips@[i].start.0);
        }
    }

    /// The index of the clip under `frame`.
    pub fn clip_index_at(&self, frame: Frame) -> (found: Option<usize>)
        requires
            self.wf(),
        ensures
            match found {
                Some(i) => i < self.clips@.len() && self.clips@[i as int].covers(frame)
                    && self.covering(frame) == Some(i as int),
                None => self.covering(frame) is None,
            },
    {
        let mut i: usize = 0;
        while i < self.clips.len()
            invariant
                self.wf(),
                i <= self.clips@.len(),
                forall|k: int| 0 <= k < i ==> !(#[trigger] self.clips@[k]).covers(frame),
            decreases self.clips@.len() - i,
        {
            let c = &self.clips[i];
            if c.start.0 <= frame.0 && frame.0 < c.end().0 {
                proof {
                    assert(self.clips@[i as int].covers(frame));
                    let k = self.covering(frame)->Some_0;
                    self.lemma_covering_unique(frame, i as int, k);
                }
                return Some(i);
            }
            i = i + 1;
        }
        None
    }
}

/// A named point on the timeline.
#[derive(Debug, PartialEq, Eq)]
pub struct Marker {
    pub frame: Frame,
    pub label: String,
}

/// A place to return to, on one track or on whichever has the focus.
#[derive(Clone, Copy, Debug, PartialEq, Eq, Structural)]
pub struct Mark {
    pub name: char,
    pub frame: Frame,
    pub track: Option<TrackId>,
}

/// The playhead: a frame and the focused track.
#[derive(Clone, Copy, Debug, PartialEq, Eq, Structural)]
pub struct Playhead {
    pub frame: Frame,
    pub track: TrackId,
}

/// An edit: tracks in stacking order, with what navigates them.
#[derive(Debug, PartialEq, Eq)]
pub struct Timeline {
    pub props: TimelineProps,
    pub tracks: Vec<Track>,
    pub markers: Vec<Marker>,
    pub marks: Vec<Mark>,
    pub playhead: Playhead,
    /// The next clip id that has never been used.
    pub id_cursor: u64,
}

impl Timeline {
    /// Every track is well formed and is found by its own id.
    pub open spec fn wf(self) -> bool {
        &&& forall|i: int| 0 <= i < self.tracks@.len() ==> (#[trigger] self.tracks@[i]).wf()
        &&& forall|i: int, j: int|
            0 <= i < j < self.tracks@.len() ==> (#[trigger] self.tracks@[i]).id != (
            #[trigger] self.tracks@[j]).id
    }

    /// Whether the tracks are well formed, and no two share an id.
    pub fn is_well_formed(&self) -> (ok: bool)
        ensures
            ok == self.wf(),
            ok == self@.wf(),
    {
        proof {
            self.lemma_wf();
        }
        let n: usize = self.tracks.len();
        let mut i: usize = 0;
        while i < n
            invariant
                self.wf() == self@.wf(),
                i <= n == self.tracks@.len(),
                forall|k: int| 0 <= k < i ==> (#[trigger] self.tracks@[k]).wf(),
                forall|j: int, k: int|
                    0 <= j < k < i ==> (#[trigger] self.tracks@[j]).id != (
                    #[trigger] self.tracks@[k]).id,
            decreases n - i,
        {
            if !self.tracks[i].is_well_formed() {
                assert(!self.tracks@[i as int].wf());
                return false;
            }
            let id = self.tracks[i].id;
            let mut j: usize = 0;
            while j < i
                invariant
                    self.wf() == self@.wf(),
                    j <= i < n == self.tracks@.len(),
                    id == self.tracks@[i as int].id,
                    forall|k: int| 0 <= k < j ==> (#[trigger] self.tracks@[k]).id != id,
                decreases i - j,
            {
                if self.tracks[j].id == id {
                    assert(self.tracks@[j as int].id == self.tracks@[i as int].id);
                    return false;
                }
                j = j + 1;
            }
            i = i + 1;
        }
        true
    }

    /// The position of the track `id` in the stack.
    pub open spec fn track_position(self, id: TrackId) -> Option<int> {
        if exists|i: int| 0 <= i < self.tracks@.len() && (#[trigger] self.tracks@[i]).id == id {
            Some(choose|i: int| 0 <= i < self.tracks@.len() && (#[trigger] self.tracks@[i]).id == id)
        } else {
            None
        }
    }

    /// A track is found by its id.
    pub proof fn lemma_position(self, i: int)
        requires
            self.wf(),
            0 <= i < self.tracks@.len(),
        ensures
            self.track_position(self.tracks@[i].id) == Some(i),
    {
        let id = self.tracks@[i].id;
        let k = self.track_position(id)->Some_0;
        assert(self.tracks@[i].id == id);
        assert(self.tracks@[k].id == id);
    }

    /// The position of the track `id` in the stack.
    pub fn track_index(&self, id: TrackId) -> (found: Option<usize>)
        requires
            self.wf(),
        ensures
            match found {
                Some(i) => i < self.tracks@.len() && self.tracks@[i as int].id == id
                    && self.track_position(id) == Some(i as int),
                None => self.track_position(id) is None,
            },
    {
        let mut i: usize = 0;
        while i < self.tracks.len()
            invariant
                self.wf(),
                i <= self.tracks@.len(),
                forall|k: int| 0 <= k < i ==> (#[trigger] self.tracks@[k]).id != id,
            decreases self.tracks@.len() - i,
        {
            if self.tracks[i].id == id {
                proof {
                    assert(self.tracks@[i as int].id == id);
                    let k = self.track_position(id)->Some_0;
                    assert(self.tracks@[k].id == id);
                    assert(k == i as int);
                }
                return Some(i);
            }
            i = i + 1;
        }
        None
    }

    /// The end of the last clip of the first `n` tracks.
    pub open spec fn duration_of(self, n: nat) -> int
        decreases n,
    {
        if n == 0 {
            0
        } else {
            let before = self.duration_of((n - 1) as nat);
            let clips = self.tracks@[n - 1].clips@;
            if clips.len() > 0 && clips.last().spec_end() > before {
                clips.last().spec_end()
            } else {
                before
            }
        }
    }

    /// The first frame after everything on the timeline.
    pub open spec fn spec_duration(self) -> int {
        self.duration_of(self.tracks@.len())
    }

    /// Every clip ends within the timeline.
    pub proof fn lemma_duration_bounds(self, n: nat, track: int, clip: int)
        requires
            self.wf(),
            n <= self.tracks@.len(),
            0 <= track < n,
            0 <= clip < self.tracks@[track].clips@.len(),
        ensures
            self.tracks@[track].clips@[clip].spec_end() <= self.duration_of(n),
        decreases n,
    {
        let t = self.tracks@[track];
        assert(t.wf());
        let last = t.clips@.len() - 1;
        if clip < last {
            assert(t.clips@[clip].spec_end() <= t.clips@[last].start.0);
        }
        if track < n - 1 {
            self.lemma_duration_bounds((n - 1) as nat, track, clip);
        }
    }

    pub fn duration(&self) -> (f: Frame)
        requires
            self.wf(),
        ensures
            f.0 == self.spec_duration(),
    {
        let mut longest: u64 = 0;
        let mut i: usize = 0;
        while i < self.tracks.len()
            invariant
                self.wf(),
                i <= self.tracks@.len(),
                longest == self.duration_of(i as nat),
            decreases self.tracks@.len() - i,
        {
            let clips = &self.tracks[i].clips;
            assert(self.tracks@[i as int].wf());
            if clips.len() > 0 {
                let end: u64 = clips[clips.len() - 1].end().0;
                if end > longest {
                    longest = end;
                }
            }
            i = i + 1;
        }
        Frame(longest)
    }
}

/// The contents of a [`MediaRef`].
pub struct MediaView {
    pub path: Seq<char>,
    pub frames: Frame,
    pub offline: bool,
    pub stream: Option<u32>,
    pub channels: Option<u16>,
}

impl View for MediaRef {
    type V = MediaView;

    open spec fn view(&self) -> MediaView {
        MediaView {
            path: self.path@,
            frames: self.frames,
            offline: self.offline,
            stream: self.stream,
            channels: self.channels,
        }
    }
}

impl Clone for MediaRef {
    fn clone(&self) -> (c: Self)
        ensures
            c@ == self@,
            c == *self,
    {
        MediaRef {
            path: self.path.clone(),
            frames: self.frames,
            offline: self.offline,
            stream: self.stream,
            channels: self.channels,
        }
    }
}

/// The contents of a [`Transition`].
pub struct TransitionView {
    pub kind: Seq<char>,
    pub duration: Frame,
}

impl View for Transition {
    type V = TransitionView;

    open spec fn view(&self) -> TransitionView {
        TransitionView { kind: self.kind@, duration: self.duration }
    }
}

impl Clone for Transition {
    fn clone(&self) -> (c: Self)
        ensures
            c@ == self@,
            c == *self,
    {
        Transition { kind: self.kind.clone(), duration: self.duration }
    }
}

/// The contents of a [`Clip`].
pub struct ClipView {
    pub id: ClipId,
    pub label: Seq<char>,
    pub start: Frame,
    pub duration: Frame,
    pub source_in: Frame,
    pub media: Option<MediaView>,
    pub text: Option<Seq<char>>,
    pub props: ClipProps,
    pub group: Option<GroupId>,
    pub transition_in: Option<TransitionView>,
}

impl ClipView {
    pub open spec fn end(self) -> int {
        self.start.0 + self.duration.0
    }

    pub open spec fn source_out(self) -> int {
        self.source_in.0 + self.duration.0
    }

    pub open spec fn wf(self) -> bool {
        self.duration.0 >= 1 && self.end() <= u64::MAX && self.source_out() <= u64::MAX
    }
}

impl View for Clip {
    type V = ClipView;

    open spec fn view(&self) -> ClipView {
        ClipView {
            id: self.id,
            label: self.label@,
            start: self.start,
            duration: self.duration,
            source_in: self.source_in,
            media: match self.media {
                Some(m) => Some(m@),
                None => None,
            },
            text: match self.text {
                Some(t) => Some(t@),
                None => None,
            },
            props: self.props,
            group: self.group,
            transition_in: match self.transition_in {
                Some(t) => Some(t@),
                None => None,
            },
        }
    }
}

impl Clone for Clip {
    fn clone(&self) -> (c: Self)
        ensures
            c@ == self@,
            c == *self,
    {
        let media = match &self.media {
            Some(m) => Some(m.clone()),
            None => None,
        };
        let text = match &self.text {
            Some(t) => Some(t.clone()),
            None => None,
        };
        let transition_in = match &self.transition_in {
            Some(t) => Some(t.clone()),
            None => None,
        };
        Clip {
            id: self.id,
            label: self.label.clone(),
            start: self.start,
            duration: self.duration,
            source_in: self.source_in,
            media,
            text,
            props: self.props,
            group: self.group,
            transition_in,
        }
    }
}

/// The contents of a list of clips.
pub open spec fn clips_view(v: Seq<Clip>) -> Seq<ClipView> {
    Seq::new(v.len(), |i: int| v[i]@)
}

/// Clips are well formed, in order, and do not overlap.
pub open spec fn clips_wf(v: Seq<ClipView>) -> bool {
    &&& forall|i: int| 0 <= i < v.len() ==> (#[trigger] v[i]).wf()
    &&& forall|i: int, j: int|
        0 <= i < j < v.len() ==> (#[trigger] v[i]).end() <= (#[trigger] v[j]).start.0
}

/// The contents of a [`Track`].
pub struct TrackView {
    pub id: TrackId,
    pub name: Seq<char>,
    pub kind: TrackKind,
    pub muted: bool,
    pub solo: bool,
    pub clips: Seq<ClipView>,
}

impl View for Track {
    type V = TrackView;

    open spec fn view(&self) -> TrackView {
        TrackView {
            id: self.id,
            name: self.name@,
            kind: self.kind,
            muted: self.muted,
            solo: self.solo,
            clips: clips_view(self.clips@),
        }
    }
}

impl Clone for Track {
    fn clone(&self) -> (c: Self)
        ensures
            c@ == self@,
    {
        let mut clips: Vec<Clip> = Vec::new();
        let mut i: usize = 0;
        while i < self.clips.len()
            invariant
                i <= self.clips@.len(),
                clips@.len() == i,
                forall|k: int| 0 <= k < i ==> (#[trigger] clips@[k])@ == self.clips@[k]@,
            decreases self.clips@.len() - i,
        {
            clips.push(self.clips[i].clone());
            i = i + 1;
        }
        assert(clips_view(clips@) =~= clips_view(self.clips@));
        Track {
            id: self.id,
            name: self.name.clone(),
            kind: self.kind,
            muted: self.muted,
            solo: self.solo,
            clips,
        }
    }
}

/// The contents of a [`Marker`].
pub struct MarkerView {
    pub frame: Frame,
    pub label: Seq<char>,
}

impl View for Marker {
    type V = MarkerView;

    open spec fn view(&self) -> MarkerView {
        MarkerView { frame: self.frame, label: self.label@ }
    }
}

/// The contents of a [`Timeline`] but for its id cursor.
pub struct TimelineView {
    pub props: TimelineProps,
    pub tracks: Seq<TrackView>,
    pub markers: Seq<MarkerView>,
    pub marks: Seq<Mark>,
    pub playhead: Playhead,
}

/// The contents of a list of tracks.
pub open spec fn tracks_view(v: Seq<Track>) -> Seq<TrackView> {
    Seq::new(v.len(), |i: int| v[i]@)
}

/// The contents of a list of markers.
pub open spec fn markers_view(v: Seq<Marker>) -> Seq<MarkerView> {
    Seq::new(v.len(), |i: int| v[i]@)
}

impl View for Timeline {
    type V = TimelineView;

    open spec fn view(&self) -> TimelineView {
        TimelineView {
            props: self.props,
            tracks: tracks_view(self.tracks@),
            markers: markers_view(self.markers@),
            marks: self.marks@,
            playhead: self.playhead,
        }
    }
}

impl TimelineView {
    pub open spec fn wf(self) -> bool {
        &&& forall|i: int| 0 <= i < self.tracks.len() ==> clips_wf((#[trigger] self.tracks[i]).clips)
        &&& forall|i: int, j: int|
            0 <= i < j < self.tracks.len() ==> (#[trigger] self.tracks[i]).id != (
            #[trigger] self.tracks[j]).id
    }
}

/// Everything a timeline is: its contents and its id cursor.
pub struct TimelineState {
    pub content: TimelineView,
    pub cursor: u64,
}

impl Timeline {
    pub open spec fn state(self) -> TimelineState {
        TimelineState { content: self@, cursor: self.id_cursor }
    }

    /// A timeline is well formed when its contents are.
    pub proof fn lemma_wf(self)
        ensures
            self.wf() == self@.wf(),
    {
        let v = self@;
        assert forall|i: int| 0 <= i < self.tracks@.len() implies (
        #[trigger] self.tracks@[i]).wf() == clips_wf(v.tracks[i].clips) by {
            let t = self.tracks@[i];
            let c = v.tracks[i].clips;
            assert(c.len() == t.clips@.len());
            if t.wf() {
                assert forall|k: int| 0 <= k < c.len() implies (#[trigger] c[k]).wf() by {
                    assert(t.clips@[k].wf());
                }
                assert forall|a: int, b: int| 0 <= a < b < c.len() implies (#[trigger] c[a]).end()
                    <= (#[trigger] c[b]).start.0 by {
                    assert(t.clips@[a].spec_end() <= t.clips@[b].start.0);
                }
            }
            if clips_wf(c) {
                assert forall|k: int| 0 <= k < t.clips@.len() implies (
                #[trigger] t.clips@[k]).wf() by {
                    assert(c[k].wf());
                }
                assert forall|a: int, b: int| 0 <= a < b < t.clips@.len() implies (
                #[trigger] t.clips@[a]).spec_end() <= (#[trigger] t.clips@[b]).start.0 by {
                    assert(c[a].end() <= c[b].start.0);
                }
            }
        }
        if self.wf() {
            assert forall|i: int| 0 <= i < v.tracks.len() implies clips_wf(
                (#[trigger] v.tracks[i]).clips,
            ) by {
                assert(self.tracks@[i].wf());
            }
            assert forall|i: int, j: int| 0 <= i < j < v.tracks.len() implies (
            #[trigger] v.tracks[i]).id != (#[trigger] v.tracks[j]).id by {
                assert(self.tracks@[i].id != self.tracks@[j].id);
            }
        }
        if v.wf() {
            assert forall|i: int| 0 <= i < self.tracks@.len() implies (
            #[trigger] self.tracks@[i]).wf() by {
                assert(clips_wf(v.tracks[i].clips));
            }
            assert forall|i: int, j: int| 0 <= i < j < self.tracks@.len() implies (
            #[trigger] self.tracks@[i]).id != (#[trigger] self.tracks@[j]).id by {
                assert(v.tracks[i].id != v.tracks[j].id);
            }
        }
    }
}

impl Clone for Timeline {
    fn clone(&self) -> (c: Self)
        ensures
            c.state() == self.state(),
    {
        let mut tracks: Vec<Track> = Vec::new();
        let mut i: usize = 0;
        while i < self.tracks.len()
            invariant
                i <= self.tracks@.len(),
                tracks@.len() == i,
                forall|k: int| 0 <= k < i ==> (#[trigger] tracks@[k])@ == self.tracks@[k]@,
            decreases self.tracks@.len() - i,
        {
            tracks.push(self.tracks[i].clone());
            i = i + 1;
        }
        assert(tracks_view(tracks@) =~= tracks_view(self.tracks@));
        let mut markers: Vec<Marker> = Vec::new();
        let mut m: usize = 0;
        while m < self.markers.len()
            invariant
                m <= self.markers@.len(),
                markers@.len() == m,
                forall|k: int| 0 <= k < m ==> (#[trigger] markers@[k])@ == self.markers@[k]@,
            decreases self.markers@.len() - m,
        {
            markers.push(
                Marker { frame: self.markers[m].frame, label: self.markers[m].label.clone() },
            );
            m = m + 1;
        }
        assert(markers_view(markers@) =~= markers_view(self.markers@));
        let mut marks: Vec<Mark> = Vec::new();
        let mut k: usize = 0;
        while k < self.marks.len()
            invariant
                k <= self.marks@.len(),
                marks@ == self.marks@.take(k as int),
            decreases self.marks@.len() - k,
        {
            marks.push(self.marks[k]);
            k = k + 1;
            assert(marks@ =~= self.marks@.take(k as int));
        }
        assert(marks@ =~= self.marks@);
        Timeline {
            props: self.props,
            tracks,
            markers,
            marks,
            playhead: self.playhead,
            id_cursor: self.id_cursor,
        }
    }
}

/// An overlap lies around its cut: half of it before, rounded down, and the
/// rest after.
pub proof fn an_overlap_lies_around_its_cut(t: Transition)
    ensures
        t.spec_head() + t.spec_tail() == t.duration.0,
        t.spec_head() <= t.spec_tail() <= t.spec_head() + 1,
        t.spec_head() >= 0,
{
}

/// A timeline ends where its last clip ends, and is empty without one.
pub proof fn a_timeline_ends_with_its_last_clip(tl: Timeline, n: nat)
    requires
        tl.wf(),
        n <= tl.tracks@.len(),
    ensures
        tl.duration_of(n) >= 0,
        tl.duration_of(n) > 0 ==> exists|i: int, k: int|
            0 <= i < n && 0 <= k < tl.tracks@[i].clips@.len() && (
            #[trigger] tl.tracks@[i].clips@[k]).start.0 + tl.tracks@[i].clips@[k].duration.0
                == tl.duration_of(n),
        forall|i: int, k: int|
            0 <= i < n && 0 <= k < tl.tracks@[i].clips@.len() ==> (
            #[trigger] tl.tracks@[i].clips@[k]).start.0 + tl.tracks@[i].clips@[k].duration.0
                <= tl.duration_of(n),
    decreases n,
{
    if n > 0 {
        a_timeline_ends_with_its_last_clip(tl, (n - 1) as nat);
        let clips = tl.tracks@[n - 1].clips@;
        if clips.len() > 0 {
            assert(tl.tracks@[n - 1].clips@[clips.len() - 1] == clips.last());
        }
        assert forall|i: int, k: int|
            0 <= i < n && 0 <= k < tl.tracks@[i].clips@.len() implies (
        #[trigger] tl.tracks@[i].clips@[k]).start.0 + tl.tracks@[i].clips@[k].duration.0
            <= tl.duration_of(n) by {
            tl.lemma_duration_bounds(n, i, k);
        }
    }
}

/// The clip that is found under a frame is the one that has it.
pub proof fn the_clip_under_a_frame_is_found(track: Track, k: int, frame: Frame)
    requires
        track.wf(),
        0 <= k < track.clips@.len(),
    ensures
        track.covering(frame) == Some(k) <==> track.clips@[k].start.0 <= frame.0 && frame.0
            < track.clips@[k].start.0 + track.clips@[k].duration.0,
{
    if track.clips@[k].covers(frame) {
        let i = track.covering(frame)->Some_0;
        track.lemma_covering_unique(frame, i, k);
    } else if track.covering(frame) == Some(k) {
        assert(exists|i: int| 0 <= i < track.clips@.len() && (#[trigger] track.clips@[i]).covers(
            frame,
        ));
    }
}

} // verus!
