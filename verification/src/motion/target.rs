//! What a motion or a text object resolves to.
use vstd::prelude::*;

use crate::model::Frame;
use crate::model::TrackId;

verus! {

/// A half-open span of frames, `[start, end)`.
#[derive(Clone, Copy, Debug, PartialEq, Eq, Structural)]
pub struct TimeRange {
    pub start: Frame,
    pub end: Frame,
}

impl TimeRange {
    /// The span does not end before it starts.
    pub open spec fn wf(self) -> bool {
        self.start.0 <= self.end.0
    }

    /// The span between two frames, whichever comes first.
    pub open spec fn between(a: Frame, b: Frame) -> TimeRange {
        if b.0 < a.0 {
            TimeRange { start: b, end: a }
        } else {
            TimeRange { start: a, end: b }
        }
    }

    pub open spec fn covers(self, frame: Frame) -> bool {
        self.start.0 <= frame.0 < self.end.0
    }

    pub fn new(start: Frame, end: Frame) -> (r: Self)
        ensures
            r == TimeRange::between(start, end),
            r.wf(),
    {
        if end.0 < start.0 {
            TimeRange { start: end, end: start }
        } else {
            TimeRange { start, end }
        }
    }

    pub fn len(self) -> (n: Frame)
        requires
            self.wf(),
        ensures
            n.0 == self.end.0 - self.start.0,
    {
        Frame(self.end.0 - self.start.0)
    }

    pub fn is_empty(self) -> (b: bool)
        ensures
            b == (self.start == self.end),
    {
        self.start == self.end
    }

    pub fn contains(self, frame: Frame) -> (b: bool)
        ensures
            b == self.covers(frame),
    {
        frame.0 >= self.start.0 && frame.0 < self.end.0
    }
}

/// The members of a list, each once, where it first occurs.
pub open spec fn first_occurrences(v: Seq<TrackId>) -> Seq<TrackId>
    decreases v.len(),
{
    if v.len() == 0 {
        v
    } else {
        let before = first_occurrences(v.drop_last());
        if before.contains(v.last()) {
            before
        } else {
            before.push(v.last())
        }
    }
}

/// Which tracks an operation touches.
#[derive(Debug, PartialEq, Eq)]
pub struct Scope {
    pub tracks: Vec<TrackId>,
}

impl View for Scope {
    type V = Seq<TrackId>;

    open spec fn view(&self) -> Seq<TrackId> {
        self.tracks@
    }
}

fn holds(v: &Vec<TrackId>, track: TrackId) -> (b: bool)
    ensures
        b == v@.contains(track),
{
    let mut i: usize = 0;
    while i < v.len()
        invariant
            i <= v@.len(),
            forall|k: int| 0 <= k < i ==> v@[k] != track,
        decreases v@.len() - i,
    {
        if v[i] == track {
            return true;
        }
        i = i + 1;
    }
    false
}

impl Scope {
    /// A scope of the given tracks, each once and in the order given.
    pub fn new(tracks: &[TrackId]) -> (s: Self)
        ensures
            s@ == first_occurrences(tracks@),
    {
        let mut out: Vec<TrackId> = Vec::new();
        let mut i: usize = 0;
        assert(tracks@.take(0) =~= Seq::<TrackId>::empty());
        while i < tracks.len()
            invariant
                i <= tracks@.len(),
                out@ == first_occurrences(tracks@.take(i as int)),
            decreases tracks@.len() - i,
        {
            assert(tracks@.take(i as int + 1).drop_last() =~= tracks@.take(i as int));
            if !holds(&out, tracks[i]) {
                out.push(tracks[i]);
            }
            i = i + 1;
        }
        assert(tracks@.take(i as int) =~= tracks@);
        Scope { tracks: out }
    }

    pub fn single(track: TrackId) -> (s: Self)
        ensures
            s@ == seq![track],
    {
        let mut tracks: Vec<TrackId> = Vec::new();
        tracks.push(track);
        assert(tracks@ =~= seq![track]);
        Scope { tracks }
    }

    pub fn tracks(&self) -> (v: &[TrackId])
        ensures
            v@ == self@,
    {
        self.tracks.as_slice()
    }

    pub fn len(&self) -> (n: usize)
        ensures
            n == self@.len(),
    {
        self.tracks.len()
    }

    pub fn is_empty(&self) -> (b: bool)
        ensures
            b == (self@.len() == 0),
    {
        self.tracks.len() == 0
    }

    pub fn contains(&self, track: TrackId) -> (b: bool)
        ensures
            b == self@.contains(track),
    {
        holds(&self.tracks, track)
    }
}

/// A scope holds exactly the tracks it was made of, and none of them twice.
pub proof fn a_scope_is_a_set_in_order(v: Seq<TrackId>)
    ensures
        forall|t: TrackId| (#[trigger] first_occurrences(v).contains(t)) == v.contains(t),
        forall|i: int, j: int|
            0 <= i < j < first_occurrences(v).len() ==> first_occurrences(v)[i]
                != first_occurrences(v)[j],
        v.len() > 0 ==> first_occurrences(v).len() > 0 && first_occurrences(v)[0] == v[0],
    decreases v.len(),
{
    if v.len() > 0 {
        let front = v.drop_last();
        a_scope_is_a_set_in_order(front);
        let before = first_occurrences(front);
        let now = first_occurrences(v);
        assert forall|t: TrackId| (#[trigger] now.contains(t)) == v.contains(t) by {
            if v.contains(t) {
                let i = choose|i: int| 0 <= i < v.len() && v[i] == t;
                if i < front.len() {
                    assert(front[i] == t);
                    assert(before.contains(t));
                    let k = choose|k: int| 0 <= k < before.len() && before[k] == t;
                    assert(now[k] == t);
                } else if before.contains(t) {
                    let k = choose|k: int| 0 <= k < before.len() && before[k] == t;
                    assert(now[k] == t);
                } else {
                    assert(now.last() == t);
                }
            }
            if now.contains(t) {
                let k = choose|k: int| 0 <= k < now.len() && now[k] == t;
                if k < before.len() {
                    assert(before[k] == t);
                    assert(before.contains(t));
                    assert(front.contains(t));
                    let i = choose|i: int| 0 <= i < front.len() && front[i] == t;
                    assert(v[i] == t);
                } else {
                    assert(v.last() == t);
                }
            }
        }
        if front.len() == 0 {
            assert(before =~= Seq::<TrackId>::empty());
        }
    }
}

/// A playhead position: a frame and the focused track.
#[derive(Clone, Copy, Debug, PartialEq, Eq, Structural)]
pub struct Position {
    pub frame: Frame,
    pub track: TrackId,
}

/// What a motion or a text object resolves to. `Pending` means that the
/// answer is not known yet, and must not be guessed.
#[derive(Debug, PartialEq, Eq)]
pub enum Resolved {
    Position(Position),
    Range(TimeRange, Scope),
    Pending,
}

impl Resolved {
    /// The frame a motion landed on.
    pub open spec fn landing(self) -> Option<Frame> {
        match self {
            Resolved::Position(p) => Some(p.frame),
            Resolved::Range(r, _) => Some(r.start),
            Resolved::Pending => None,
        }
    }

    pub fn frame(&self) -> (f: Option<Frame>)
        ensures
            f == self.landing(),
    {
        match self {
            Resolved::Position(p) => Some(p.frame),
            Resolved::Range(r, _) => Some(r.start),
            Resolved::Pending => None,
        }
    }

    pub fn is_pending(&self) -> (b: bool)
        ensures
            b == (self is Pending),
    {
        match self {
            Resolved::Pending => true,
            _ => false,
        }
    }
}

/// Which way a directional motion goes.
#[derive(Clone, Copy, Debug, PartialEq, Eq, Structural)]
pub enum Direction {
    Backward,
    Forward,
}

impl Direction {
    pub fn is_forward(self) -> (b: bool)
        ensures
            b == (self == Direction::Forward),
    {
        match self {
            Direction::Forward => true,
            Direction::Backward => false,
        }
    }
}

/// A span between two frames begins at the earlier and ends at the later,
/// whichever is named first, and holds the frames from the one up to the
/// other.
pub proof fn a_span_lies_between_its_ends(a: Frame, b: Frame, f: Frame)
    ensures
        TimeRange::between(a, b) == TimeRange::between(b, a),
        a.0 <= b.0 ==> TimeRange::between(a, b).start == a && TimeRange::between(a, b).end == b,
        a.0 <= b.0 ==> (TimeRange::between(a, b).covers(f) <==> a.0 <= f.0 && f.0 < b.0),
{
}

} // verus!
