//! Motions: where the playhead goes.
//!
//! A motion never changes anything. Counts are applied by the motion, and stop
//! at the ends of the timeline.
use vstd::prelude::*;

use crate::model::Clip;
use crate::model::Frame;
use crate::model::Mark;
use crate::model::Marker;
use crate::model::Timeline;
use crate::model::Track;
use crate::model::TrackId;
use crate::motion::error::MotionError;
use crate::motion::error::Refusal;
use crate::motion::jump::JumpPoints;
use crate::motion::jump::a_destination_is_a_point;
use crate::motion::jump::a_step_is_the_nearest;
use crate::motion::jump::destination;
use crate::motion::jump::is_beyond;
use crate::motion::jump::steps;
use crate::motion::predicate::Answer;
use crate::motion::predicate::NoAnalysis;
use crate::motion::predicate::Predicate;
use crate::motion::predicate::PredicateIndex;
use crate::motion::target::Direction;
use crate::motion::target::Position;
use crate::motion::target::Resolved;
use crate::text::decimal;
use crate::text::decimal_string;

verus! {

/// Everything a motion may read.
pub struct MotionCtx<'a, A: PredicateIndex> {
    pub timeline: &'a Timeline,
    pub jumps: &'a JumpPoints,
    /// The index behind predicate motions; without one every search is
    /// pending.
    pub analysis: Option<&'a A>,
    /// Where the motion starts, when that is not the playhead.
    pub origin: Option<Position>,
}

impl<'a> MotionCtx<'a, NoAnalysis> {
    pub fn new(timeline: &'a Timeline, jumps: &'a JumpPoints) -> (c: Self)
        ensures
            *c.timeline == *timeline,
            *c.jumps == *jumps,
            c.analysis is None,
            c.origin is None,
    {
        MotionCtx { timeline, jumps, analysis: None, origin: None }
    }
}

impl<'a, A: PredicateIndex> MotionCtx<'a, A> {
    /// Resolves from `origin` rather than from the playhead.
    pub fn from(self, origin: Position) -> (c: Self)
        ensures
            c == (MotionCtx { origin: Some(origin), ..self }),
    {
        MotionCtx {
            timeline: self.timeline,
            jumps: self.jumps,
            analysis: self.analysis,
            origin: Some(origin),
        }
    }

    pub fn with_analysis<B: PredicateIndex>(self, analysis: &'a B) -> (c: MotionCtx<'a, B>)
        ensures
            *c.timeline == *self.timeline,
            *c.jumps == *self.jumps,
            c.analysis == Some(analysis),
            c.origin == self.origin,
    {
        MotionCtx {
            timeline: self.timeline,
            jumps: self.jumps,
            analysis: Some(analysis),
            origin: self.origin,
        }
    }

    /// The track a motion starts on.
    pub open spec fn start_track(self) -> TrackId {
        match self.origin {
            Some(p) => p.track,
            None => self.timeline.playhead.track,
        }
    }

    /// The frame a motion starts from.
    pub open spec fn start_frame(self) -> Frame {
        match self.origin {
            Some(p) => p.frame,
            None => self.timeline.playhead.frame,
        }
    }

    /// The last frame that can be addressed; an empty timeline has frame zero.
    pub open spec fn final_frame(self) -> int {
        if self.timeline.spec_duration() == 0 { 0 } else { self.timeline.spec_duration() - 1 }
    }

    /// What the index answers.
    pub open spec fn ask(self, p: Predicate, from: Frame, dir: Direction) -> Answer {
        match self.analysis {
            Some(a) => a.answer(p, from, dir),
            None => Answer::Pending,
        }
    }

    fn track(&self) -> (t: TrackId)
        ensures
            t == self.start_track(),
    {
        match self.origin {
            Some(p) => p.track,
            None => self.timeline.playhead.track,
        }
    }

    fn frame(&self) -> (f: Frame)
        ensures
            f == self.start_frame(),
    {
        match self.origin {
            Some(p) => p.frame,
            None => self.timeline.playhead.frame,
        }
    }

    fn last_frame(&self) -> (f: Frame)
        requires
            self.timeline.wf(),
        ensures
            f.0 == self.final_frame(),
    {
        Frame(self.timeline.duration().0.saturating_sub(1))
    }

    fn query(&self, p: &Predicate, from: Frame, dir: Direction) -> (a: Answer)
        ensures
            a == self.ask(*p, from, dir),
    {
        match self.analysis {
            Some(a) => a.find(p, from, dir),
            None => Answer::Pending,
        }
    }
}

/// Anything that resolves to a place for the playhead.
pub trait Motion {
    /// Resolves a motion. A `count` of zero means one.
    fn resolve<A: PredicateIndex>(&self, ctx: &MotionCtx<'_, A>, count: u32) -> Result<
        Resolved,
        MotionError,
    > where Self: Sized
        requires
            ctx.timeline.wf(),
    ;
}

/// The built-in motions.
#[derive(Debug, PartialEq, Eq)]
pub enum BuiltinMotion {
    /// Exactly one frame.
    Frame(Direction),
    /// To the next jump point.
    JumpPoint(Direction),
    /// To another track, stopping at the ends of the stack.
    TrackStep(Direction),
    /// To another track, going round.
    TrackCycle(Direction),
    /// To the next cut on the focused track.
    ClipBoundary(Direction),
    /// To the last frame of this clip, then of the clips after it.
    ClipEnd,
    TimelineStart,
    TimelineEnd,
    Marker(Direction),
    /// To the other end of the clip under the playhead.
    MatchingEdit,
    Mark(char),
    /// To the next match of a condition.
    Predicate(Predicate, Direction),
}

/// What a motion leads to.
pub enum Landing {
    At(Position),
    Pending,
    Refused(Refusal),
    /// A range, which no built-in motion leads to.
    Span,
}

/// What a result says.
pub open spec fn landing_view(r: Result<Resolved, MotionError>) -> Landing {
    match r {
        Ok(Resolved::Position(p)) => Landing::At(p),
        Ok(Resolved::Pending) => Landing::Pending,
        Ok(Resolved::Range(..)) => Landing::Span,
        Err(e) => Landing::Refused(e@),
    }
}

/// A place, or the reason why there is none.
pub open spec fn at_or(f: Option<Frame>, track: TrackId, refusal: Refusal) -> Landing {
    match f {
        Some(frame) => Landing::At(Position { frame, track }),
        None => Landing::Refused(refusal),
    }
}

/// Every cut of a track: the starts and ends of its clips.
pub open spec fn cuts(track: Track) -> Seq<Frame> {
    cuts_of(track.clips@, track.clips@.len())
}

pub open spec fn cuts_of(clips: Seq<Clip>, n: nat) -> Seq<Frame>
    decreases n,
{
    if n == 0 {
        Seq::empty()
    } else {
        cuts_of(clips, (n - 1) as nat).push(clips[n - 1].start).push(
            Frame(clips[n - 1].spec_end() as u64),
        )
    }
}

/// The last frame of every clip of a track.
pub open spec fn clip_ends(track: Track) -> Seq<Frame> {
    Seq::new(track.clips@.len(), |i: int| Frame((track.clips@[i].spec_end() - 1) as u64))
}

/// The frames of the markers.
pub open spec fn marker_frames(markers: Seq<Marker>) -> Seq<Frame> {
    Seq::new(markers.len(), |i: int| markers[i].frame)
}

/// The track that `n` steps lead to, counted in the stack; `None` where they
/// lead nowhere.
pub open spec fn stepped(here: int, len: int, dir: Direction, n: int, wrap: bool) -> Option<int> {
    if wrap {
        match dir {
            Direction::Forward => Some((here + n % len) % len),
            Direction::Backward => Some((here + len - n % len) % len),
        }
    } else {
        let want = match dir {
            Direction::Forward => if here + n < len {
                here + n
            } else {
                len - 1
            },
            Direction::Backward => if here > n {
                here - n
            } else {
                0
            },
        };
        if want == here {
            None
        } else {
            Some(want)
        }
    }
}

/// The mark called `name`, by its place.
pub open spec fn mark_at(marks: Seq<Mark>, name: char) -> Option<int>
    decreases marks.len(),
{
    if marks.len() == 0 {
        None
    } else if marks.last().name == name {
        Some(marks.len() - 1)
    } else {
        mark_at(marks.drop_last(), name)
    }
}

/// Where up to `n` searches lead from `from`: each starts at the match before
/// it, and one that is not known yet leaves the whole unknown.
pub open spec fn searched<A: PredicateIndex>(
    ctx: MotionCtx<'_, A>,
    p: Predicate,
    dir: Direction,
    from: Frame,
    moved: bool,
    n: nat,
) -> Landing
    decreases n,
{
    let here = if moved {
        Landing::At(Position { frame: from, track: p.searched() })
    } else {
        Landing::Refused(Refusal::NoPredicateMatch)
    };
    if n == 0 {
        here
    } else {
        match ctx.ask(p, from, dir) {
            Answer::Pending => Landing::Pending,
            Answer::NoMatch => here,
            Answer::Found(f) => searched(ctx, p, dir, f, true, (n - 1) as nat),
        }
    }
}

/// The frame `n` frames away, within the timeline.
pub open spec fn frames_away(at: Frame, dir: Direction, n: int, last: int) -> Frame {
    match dir {
        Direction::Forward => Frame((if at.0 + n < last { at.0 + n } else { last }) as u64),
        Direction::Backward => Frame((if at.0 > n { at.0 - n } else { 0 }) as u64),
    }
}

/// The name by which a missing track is reported.
pub open spec fn missing(id: TrackId) -> Refusal {
    Refusal::NoSuchTrack(decimal(id.0 as nat))
}

/// What a built-in motion leads to, taken `n` times.
pub open spec fn motion_landing<A: PredicateIndex>(
    m: BuiltinMotion,
    ctx: MotionCtx<'_, A>,
    n: nat,
) -> Landing {
    let track = ctx.start_track();
    let at = ctx.start_frame();
    let tl = *ctx.timeline;
    match m {
        BuiltinMotion::Frame(dir) => Landing::At(
            Position { frame: frames_away(at, dir, n as int, ctx.final_frame()), track },
        ),
        BuiltinMotion::JumpPoint(dir) => at_or(
            destination(ctx.jumps.points@, at, dir, n),
            track,
            Refusal::NoJumpPoint,
        ),
        BuiltinMotion::TrackStep(dir) => track_landing(ctx, dir, n, false),
        BuiltinMotion::TrackCycle(dir) => track_landing(ctx, dir, n, true),
        BuiltinMotion::ClipBoundary(dir) => match tl.track_position(track) {
            Some(i) => at_or(
                destination(cuts(tl.tracks@[i]), at, dir, n),
                track,
                Refusal::NoBoundary,
            ),
            None => Landing::Refused(missing(track)),
        },
        BuiltinMotion::ClipEnd => match tl.track_position(track) {
            Some(i) => at_or(
                destination(clip_ends(tl.tracks@[i]), at, Direction::Forward, n),
                track,
                Refusal::NoBoundary,
            ),
            None => Landing::Refused(missing(track)),
        },
        BuiltinMotion::TimelineStart => Landing::At(Position { frame: Frame(0), track }),
        BuiltinMotion::TimelineEnd => Landing::At(
            Position { frame: Frame(ctx.final_frame() as u64), track },
        ),
        BuiltinMotion::Marker(dir) => at_or(
            destination(marker_frames(tl.markers@), at, dir, n),
            track,
            Refusal::NoMarker,
        ),
        BuiltinMotion::MatchingEdit => match tl.track_position(track) {
            Some(i) => match tl.tracks@[i].covering(at) {
                Some(k) => {
                    let clip = tl.tracks@[i].clips@[k];
                    Landing::At(
                        Position {
                            frame: if at == clip.start {
                                Frame((clip.spec_end() - 1) as u64)
                            } else {
                                clip.start
                            },
                            track,
                        },
                    )
                },
                None => Landing::Refused(Refusal::NoMatchingEdit(at.0)),
            },
            None => Landing::Refused(missing(track)),
        },
        BuiltinMotion::Mark(name) => match mark_at(tl.marks@, name) {
            Some(i) => Landing::At(
                Position {
                    frame: tl.marks@[i].frame,
                    track: match tl.marks@[i].track {
                        Some(t) => t,
                        None => track,
                    },
                },
            ),
            None => Landing::Refused(Refusal::NoSuchMark(name)),
        },
        BuiltinMotion::Predicate(p, dir) => searched(ctx, p, dir, at, false, n),
    }
}

/// What moving the focus by `n` tracks leads to.
pub open spec fn track_landing<A: PredicateIndex>(
    ctx: MotionCtx<'_, A>,
    dir: Direction,
    n: nat,
    wrap: bool,
) -> Landing {
    let tl = *ctx.timeline;
    match tl.track_position(ctx.start_track()) {
        Some(here) => match stepped(here, tl.tracks@.len() as int, dir, n as int, wrap) {
            Some(i) => Landing::At(
                Position { frame: ctx.start_frame(), track: tl.tracks@[i].id },
            ),
            None => Landing::Refused(Refusal::NoTrackThere),
        },
        None => Landing::Refused(Refusal::NoTrackThere),
    }
}

fn place(frame: Frame, track: TrackId) -> (r: Resolved)
    ensures
        r == Resolved::Position(Position { frame, track }),
{
    Resolved::Position(Position { frame, track })
}

fn step_frames(at: Frame, dir: Direction, n: u32, last: Frame) -> (f: Frame)
    ensures
        f == frames_away(at, dir, n as int, last.0 as int),
{
    match dir {
        Direction::Forward => {
            let to: u64 = at.0.saturating_add(n as u64);
            Frame(if to < last.0 { to } else { last.0 })
        },
        Direction::Backward => Frame(at.0.saturating_sub(n as u64)),
    }
}

fn step_track<A: PredicateIndex>(
    ctx: &MotionCtx<'_, A>,
    dir: Direction,
    n: u32,
    wrap: bool,
) -> (r: Result<Resolved, MotionError>)
    requires
        ctx.timeline.wf(),
    ensures
        landing_view(r) == track_landing(*ctx, dir, n as nat, wrap),
{
    let here: usize = match ctx.timeline.track_index(ctx.track()) {
        Some(i) => i,
        None => {
            return Err(MotionError::NoTrackThere);
        },
    };
    let len: usize = ctx.timeline.tracks.len();
    let count: usize = n as usize;
    let idx: usize = if wrap {
        let delta: usize = count % len;
        match dir {
            Direction::Forward => {
                if delta < len - here {
                    proof {
                        vstd::arithmetic::div_mod::lemma_small_mod((here + delta) as nat, len as nat);
                    }
                    here + delta
                } else {
                    proof {
                        vstd::arithmetic::div_mod::lemma_fundamental_div_mod_converse(
                            here + delta,
                            len as int,
                            1,
                            here + delta - len,
                        );
                    }
                    delta - (len - here)
                }
            },
            Direction::Backward => {
                if delta <= here {
                    proof {
                        vstd::arithmetic::div_mod::lemma_fundamental_div_mod_converse(
                            here + len - delta,
                            len as int,
                            1,
                            here - delta,
                        );
                    }
                    here - delta
                } else {
                    proof {
                        vstd::arithmetic::div_mod::lemma_small_mod(
                            (here + len - delta) as nat,
                            len as nat,
                        );
                    }
                    len - (delta - here)
                }
            },
        }
    } else {
        let want: usize = match dir {
            Direction::Forward => if count < len - here {
                here + count
            } else {
                len - 1
            },
            Direction::Backward => here.saturating_sub(count),
        };
        if want == here {
            return Err(MotionError::NoTrackThere);
        }
        want
    };
    Ok(place(ctx.frame(), ctx.timeline.tracks[idx].id))
}

/// The cuts of a track.
fn boundaries(track: &Track) -> (v: Vec<Frame>)
    requires
        track.wf(),
    ensures
        v@ == cuts(*track),
{
    let mut v: Vec<Frame> = Vec::new();
    let mut i: usize = 0;
    while i < track.clips.len()
        invariant
            track.wf(),
            i <= track.clips@.len(),
            v@ == cuts_of(track.clips@, i as nat),
        decreases track.clips@.len() - i,
    {
        let c = &track.clips[i];
        assert(track.clips@[i as int].wf());
        v.push(c.start);
        v.push(c.end());
        i = i + 1;
    }
    v
}

fn ends(track: &Track) -> (v: Vec<Frame>)
    requires
        track.wf(),
    ensures
        v@ == clip_ends(*track),
{
    let mut v: Vec<Frame> = Vec::new();
    let mut i: usize = 0;
    while i < track.clips.len()
        invariant
            track.wf(),
            i <= track.clips@.len(),
            v@.len() == i,
            forall|k: int|
                0 <= k < i ==> #[trigger] v@[k] == Frame(
                    (track.clips@[k].spec_end() - 1) as u64,
                ),
        decreases track.clips@.len() - i,
    {
        let c = &track.clips[i];
        assert(track.clips@[i as int].wf());
        v.push(Frame(c.end().0 - 1));
        i = i + 1;
    }
    assert(v@ =~= clip_ends(*track));
    v
}

fn frames_of(markers: &Vec<Marker>) -> (v: Vec<Frame>)
    ensures
        v@ == marker_frames(markers@),
{
    let mut v: Vec<Frame> = Vec::new();
    let mut i: usize = 0;
    while i < markers.len()
        invariant
            i <= markers@.len(),
            v@.len() == i,
            forall|k: int| 0 <= k < i ==> #[trigger] v@[k] == markers@[k].frame,
        decreases markers@.len() - i,
    {
        v.push(markers[i].frame);
        i = i + 1;
    }
    assert(v@ =~= marker_frames(markers@));
    v
}

fn arrive(points: &Vec<Frame>, at: Frame, dir: Direction, n: u32, track: TrackId, e: MotionError) -> (r:
    Result<Resolved, MotionError>)
    requires
        n > 0,
    ensures
        landing_view(r) == at_or(destination(points@, at, dir, n as nat), track, e@),
{
    match steps(points.as_slice(), at, dir, n) {
        Some(f) => Ok(place(f, track)),
        None => Err(e),
    }
}

fn no_such_track(id: TrackId) -> (e: MotionError)
    ensures
        e@ == missing(id),
{
    MotionError::NoSuchTrack(decimal_string(id.0))
}

fn find_mark(marks: &Vec<Mark>, name: char) -> (found: Option<usize>)
    ensures
        match found {
            Some(i) => i < marks@.len() && mark_at(marks@, name) == Some(i as int),
            None => mark_at(marks@, name) is None,
        },
{
    let mut i: usize = marks.len();
    assert(marks@.take(marks@.len() as int) =~= marks@);
    while i > 0
        invariant
            i <= marks@.len(),
            mark_at(marks@, name) == mark_at(marks@.take(i as int), name),
        decreases i,
    {
        assert(marks@.take(i as int).drop_last() =~= marks@.take(i as int - 1));
        if marks[i - 1].name == name {
            return Some(i - 1);
        }
        i = i - 1;
    }
    None
}

fn search<A: PredicateIndex>(
    ctx: &MotionCtx<'_, A>,
    p: &Predicate,
    dir: Direction,
    n: u32,
) -> (r: Result<Resolved, MotionError>)
    ensures
        landing_view(r) == searched(*ctx, *p, dir, ctx.start_frame(), false, n as nat),
{
    let mut at = ctx.frame();
    let mut moved = false;
    let mut i: u32 = 0;
    while i < n
        invariant
            i <= n,
            searched(*ctx, *p, dir, ctx.start_frame(), false, n as nat) == searched(
                *ctx,
                *p,
                dir,
                at,
                moved,
                (n - i) as nat,
            ),
        decreases n - i,
    {
        match ctx.query(p, at, dir) {
            Answer::Pending => {
                return Ok(Resolved::Pending);
            },
            Answer::NoMatch => {
                return if moved {
                    Ok(place(at, p.track()))
                } else {
                    Err(MotionError::NoPredicateMatch)
                };
            },
            Answer::Found(f) => {
                at = f;
                moved = true;
            },
        }
        i = i + 1;
    }
    if moved {
        Ok(place(at, p.track()))
    } else {
        Err(MotionError::NoPredicateMatch)
    }
}

impl BuiltinMotion {
    /// Which way along the timeline this motion travels, when it travels along
    /// it at all.
    pub fn time_direction(&self) -> (d: Option<Direction>)
        ensures
            d == match *self {
                BuiltinMotion::Frame(dir) => Some(dir),
                BuiltinMotion::JumpPoint(dir) => Some(dir),
                BuiltinMotion::ClipBoundary(dir) => Some(dir),
                BuiltinMotion::Marker(dir) => Some(dir),
                BuiltinMotion::Predicate(_, dir) => Some(dir),
                BuiltinMotion::ClipEnd => Some(Direction::Forward),
                BuiltinMotion::TimelineEnd => Some(Direction::Forward),
                BuiltinMotion::TimelineStart => Some(Direction::Backward),
                _ => None,
            },
    {
        match self {
            BuiltinMotion::Frame(dir) => Some(*dir),
            BuiltinMotion::JumpPoint(dir) => Some(*dir),
            BuiltinMotion::ClipBoundary(dir) => Some(*dir),
            BuiltinMotion::Marker(dir) => Some(*dir),
            BuiltinMotion::Predicate(_, dir) => Some(*dir),
            BuiltinMotion::ClipEnd => Some(Direction::Forward),
            BuiltinMotion::TimelineEnd => Some(Direction::Forward),
            BuiltinMotion::TimelineStart => Some(Direction::Backward),
            _ => None,
        }
    }
}

impl Motion for BuiltinMotion {
    fn resolve<A: PredicateIndex>(&self, ctx: &MotionCtx<'_, A>, count: u32) -> (r: Result<
        Resolved,
        MotionError,
    >)
        ensures
            landing_view(r) == motion_landing(*self, *ctx, if count < 1 { 1 } else { count as nat }),
    {
        let n: u32 = if count < 1 {
            1
        } else {
            count
        };
        let track = ctx.track();
        let at = ctx.frame();
        let tl = ctx.timeline;
        match self {
            BuiltinMotion::Frame(dir) => Ok(
                place(step_frames(at, *dir, n, ctx.last_frame()), track),
            ),
            BuiltinMotion::JumpPoint(dir) => arrive(
                &ctx.jumps.points,
                at,
                *dir,
                n,
                track,
                MotionError::NoJumpPoint,
            ),
            BuiltinMotion::TrackStep(dir) => step_track(ctx, *dir, n, false),
            BuiltinMotion::TrackCycle(dir) => step_track(ctx, *dir, n, true),
            BuiltinMotion::ClipBoundary(dir) => match tl.track_index(track) {
                Some(i) => {
                    assert(tl.tracks@[i as int].wf());
                    let points = boundaries(&tl.tracks[i]);
                    arrive(&points, at, *dir, n, track, MotionError::NoBoundary)
                },
                None => Err(no_such_track(track)),
            },
            BuiltinMotion::ClipEnd => match tl.track_index(track) {
                Some(i) => {
                    assert(tl.tracks@[i as int].wf());
                    let points = ends(&tl.tracks[i]);
                    arrive(&points, at, Direction::Forward, n, track, MotionError::NoBoundary)
                },
                None => Err(no_such_track(track)),
            },
            BuiltinMotion::TimelineStart => Ok(place(Frame(0), track)),
            BuiltinMotion::TimelineEnd => Ok(place(ctx.last_frame(), track)),
            BuiltinMotion::Marker(dir) => {
                let points = frames_of(&tl.markers);
                arrive(&points, at, *dir, n, track, MotionError::NoMarker)
            },
            BuiltinMotion::MatchingEdit => match tl.track_index(track) {
                Some(i) => {
                    assert(tl.tracks@[i as int].wf());
                    match tl.tracks[i].clip_index_at(at) {
                        Some(k) => {
                            let c = &tl.tracks[i].clips[k];
                            assert(tl.tracks@[i as int].clips@[k as int].wf());
                            let last = Frame(c.end().0 - 1);
                            Ok(place(if at == c.start { last } else { c.start }, track))
                        },
                        None => Err(MotionError::NoMatchingEdit { frame: at.0 }),
                    }
                },
                None => Err(no_such_track(track)),
            },
            BuiltinMotion::Mark(name) => match find_mark(&tl.marks, *name) {
                Some(i) => {
                    let m = tl.marks[i];
                    let on = match m.track {
                        Some(t) => t,
                        None => track,
                    };
                    Ok(place(m.frame, on))
                },
                None => Err(MotionError::NoSuchMark(*name)),
            },
            BuiltinMotion::Predicate(p, dir) => search(ctx, p, *dir, n),
        }
    }
}

proof fn lemma_cuts_inside(clips: Seq<Clip>, n: nat, limit: int)
    requires
        n <= clips.len(),
        forall|i: int| 0 <= i < clips.len() ==> (#[trigger] clips[i]).wf(),
        forall|i: int| 0 <= i < clips.len() ==> (#[trigger] clips[i]).spec_end() <= limit,
    ensures
        forall|k: int|
            0 <= k < cuts_of(clips, n).len() ==> (#[trigger] cuts_of(clips, n)[k]).0 <= limit,
    decreases n,
{
    if n > 0 {
        lemma_cuts_inside(clips, (n - 1) as nat, limit);
        assert(clips[n - 1].wf());
        assert(clips[n - 1].spec_end() <= limit);
        let before = cuts_of(clips, (n - 1) as nat);
        assert forall|k: int| 0 <= k < cuts_of(clips, n).len() implies (
        #[trigger] cuts_of(clips, n)[k]).0 <= limit by {
            if k < before.len() {
                assert(cuts_of(clips, n)[k] == before[k]);
            }
        }
    }
}

/// Whether the places that a motion chooses from lie inside the timeline: jump
/// points and markers are given, the rest is read off the clips. A mark and an
/// index may name any frame.
pub open spec fn stays_inside<A: PredicateIndex>(m: BuiltinMotion, ctx: MotionCtx<'_, A>) -> bool {
    let end = ctx.timeline.spec_duration();
    match m {
        BuiltinMotion::JumpPoint(_) => forall|i: int|
            0 <= i < ctx.jumps.points@.len() ==> (#[trigger] ctx.jumps.points@[i]).0 <= end,
        BuiltinMotion::Marker(_) => forall|i: int|
            0 <= i < ctx.timeline.markers@.len() ==> (
            #[trigger] ctx.timeline.markers@[i]).frame.0 <= end,
        BuiltinMotion::Mark(_) => false,
        BuiltinMotion::Predicate(..) => false,
        _ => true,
    }
}

/// A motion lands inside the timeline, or is refused: it can never put the
/// playhead somewhere that does not exist. It changes the track only where
/// that is what it is for.
pub proof fn motions_land_inside_the_timeline<A: PredicateIndex>(
    m: BuiltinMotion,
    ctx: MotionCtx<'_, A>,
    n: nat,
)
    requires
        ctx.timeline.wf(),
        n >= 1,
        ctx.start_frame().0 <= ctx.final_frame(),
        stays_inside(m, ctx),
    ensures
        motion_landing(m, ctx, n) matches Landing::At(p) ==> {
            &&& p.frame.0 <= ctx.timeline.spec_duration()
            &&& m is TrackStep || m is TrackCycle || p.track == ctx.start_track()
        },
{
    let tl = *ctx.timeline;
    let track = ctx.start_track();
    let at = ctx.start_frame();
    jumps_land_on_their_points(m, ctx, n);
    if let Some(i) = tl.track_position(track) {
        let t = tl.tracks@[i];
        assert(0 <= i < tl.tracks@.len());
        assert(t.wf());
        assert forall|k: int| 0 <= k < t.clips@.len() implies (
        #[trigger] t.clips@[k]).spec_end() <= tl.spec_duration() by {
            tl.lemma_duration_bounds(tl.tracks@.len(), i, k);
        }
        assert forall|k: int| 0 <= k < clip_ends(t).len() implies (
        #[trigger] clip_ends(t)[k]).0 <= tl.spec_duration() by {
            assert(t.clips@[k].wf());
            assert(t.clips@[k].spec_end() <= tl.spec_duration());
        }
        lemma_cuts_inside(t.clips@, t.clips@.len(), tl.spec_duration());
        match m {
            BuiltinMotion::ClipBoundary(dir) => {
                a_destination_is_a_point(cuts(t), at, dir, n);
            },
            BuiltinMotion::ClipEnd => {
                a_destination_is_a_point(clip_ends(t), at, Direction::Forward, n);
            },
            BuiltinMotion::MatchingEdit => {
                if let Some(k) = t.covering(at) {
                    assert(t.clips@[k].wf());
                    assert(t.clips@[k].spec_end() <= tl.spec_duration());
                }
            },
            _ => {},
        }
    }
}

/// A jump lands on one of its points and a marker motion on a marker, so they
/// stay wherever those are.
pub proof fn jumps_land_on_their_points<A: PredicateIndex>(
    m: BuiltinMotion,
    ctx: MotionCtx<'_, A>,
    n: nat,
)
    requires
        n >= 1,
    ensures
        m is JumpPoint ==> (motion_landing(m, ctx, n) matches Landing::At(p)
            ==> ctx.jumps.points@.contains(p.frame)),
        m is Marker ==> (motion_landing(m, ctx, n) matches Landing::At(p) ==> marker_frames(
            ctx.timeline.markers@,
        ).contains(p.frame)),
{
    match m {
        BuiltinMotion::JumpPoint(dir) => {
            a_destination_is_a_point(ctx.jumps.points@, ctx.start_frame(), dir, n);
        },
        BuiltinMotion::Marker(dir) => {
            a_destination_is_a_point(
                marker_frames(ctx.timeline.markers@),
                ctx.start_frame(),
                dir,
                n,
            );
        },
        _ => {},
    }
}

/// A track step moves the focus by its count, up or down, and keeps the frame.
/// One that would pass an end of the stack stops there, and one that cannot
/// move is refused. Stepping back as far as forward returns to the same track.
pub proof fn a_track_step_moves_by_its_count<A: PredicateIndex>(
    ctx: MotionCtx<'_, A>,
    here: int,
    n: nat,
)
    requires
        ctx.timeline.wf(),
        0 <= here < ctx.timeline.tracks@.len(),
        ctx.timeline.tracks@[here].id == ctx.start_track(),
        n >= 1,
    ensures
        ({
            let tracks = ctx.timeline.tracks@;
            let down = motion_landing(BuiltinMotion::TrackStep(Direction::Forward), ctx, n);
            let up = motion_landing(BuiltinMotion::TrackStep(Direction::Backward), ctx, n);
            let on = |i: int|
                Landing::At(Position { frame: ctx.start_frame(), track: tracks[i].id });
            &&& here + n < tracks.len() ==> down == on(here + n)
            &&& here + n >= tracks.len() && here < tracks.len() - 1 ==> down == on(
                tracks.len() - 1,
            )
            &&& here == tracks.len() - 1 ==> down == Landing::Refused(Refusal::NoTrackThere)
            &&& here - n >= 0 ==> up == on(here - n)
            &&& here - n < 0 && here > 0 ==> up == on(0)
            &&& here == 0 ==> up == Landing::Refused(Refusal::NoTrackThere)
            &&& forall|there: MotionCtx<'_, A>|
                here + n < tracks.len() && *there.timeline == *ctx.timeline
                    && #[trigger] there.start_track() == tracks[here + n].id && there.start_frame()
                    == ctx.start_frame() ==> motion_landing(
                    BuiltinMotion::TrackStep(Direction::Backward),
                    there,
                    n,
                ) == on(here)
        }),
{
    let tracks = ctx.timeline.tracks@;
    ctx.timeline.lemma_position(here);
    assert forall|there: MotionCtx<'_, A>|
        here + n < tracks.len() && *there.timeline == *ctx.timeline
            && #[trigger] there.start_track() == tracks[here + n].id && there.start_frame()
            == ctx.start_frame() implies motion_landing(
        BuiltinMotion::TrackStep(Direction::Backward),
        there,
        n,
    ) == Landing::At(Position { frame: ctx.start_frame(), track: tracks[here].id }) by {
        there.timeline.lemma_position(here + n);
    }
}

/// Cycling moves the focus by its count and goes round at the ends of the
/// stack: the place it leads to is that many tracks away, whole rounds left
/// out.
pub proof fn a_track_cycle_moves_by_its_count<A: PredicateIndex>(
    ctx: MotionCtx<'_, A>,
    here: int,
    n: nat,
    dir: Direction,
)
    requires
        ctx.timeline.wf(),
        0 <= here < ctx.timeline.tracks@.len(),
        ctx.timeline.tracks@[here].id == ctx.start_track(),
    ensures
        ({
            let tracks = ctx.timeline.tracks@;
            let len = tracks.len() as int;
            exists|there: int, rounds: int|
                #![trigger tracks[there], rounds * len]
                {
                    &&& 0 <= there < len
                    &&& there + rounds * len == if dir == Direction::Forward {
                        here + n
                    } else {
                        here - n
                    }
                    &&& motion_landing(BuiltinMotion::TrackCycle(dir), ctx, n) == Landing::At(
                        Position { frame: ctx.start_frame(), track: tracks[there].id },
                    )
                }
        }),
{
    let tracks = ctx.timeline.tracks@;
    let len = tracks.len() as int;
    ctx.timeline.lemma_position(here);
    let there = stepped(here, len, dir, n as int, true)->Some_0;
    let d = n as int % len;
    let q = n as int / len;
    vstd::arithmetic::div_mod::lemma_fundamental_div_mod(n as int, len);
    vstd::arithmetic::div_mod::lemma_mod_bound(n as int, len);
    let whole = if dir == Direction::Forward {
        here + d
    } else {
        here + len - d
    };
    let p = whole / len;
    vstd::arithmetic::div_mod::lemma_fundamental_div_mod(whole, len);
    vstd::arithmetic::div_mod::lemma_mod_bound(whole, len);
    assert(there == whole - len * p);
    let rounds = if dir == Direction::Forward {
        p + q
    } else {
        p - 1 - q
    };
    assert(rounds * len == if dir == Direction::Forward {
        len * p + len * q
    } else {
        len * p - len - len * q
    }) by {
        assert((p + q) * len == len * p + len * q) by (nonlinear_arith);
        assert((p - 1 - q) * len == len * p - len - len * q) by (nonlinear_arith);
    }
    assert(tracks[there] == tracks[there]);
}

/// Cycling as many tracks back as forward returns to the same track.
pub proof fn cycling_back_undoes_cycling(here: int, len: int, n: int)
    requires
        0 <= here < len,
        0 <= n,
    ensures
        ({
            let there = stepped(here, len, Direction::Forward, n, true)->Some_0;
            stepped(there, len, Direction::Backward, n, true) == Some(here)
        }),
{
    let d = n % len;
    assert(0 <= d < len) by {
        vstd::arithmetic::div_mod::lemma_mod_bound(n, len);
    }
    if here + d < len {
        vstd::arithmetic::div_mod::lemma_small_mod((here + d) as nat, len as nat);
        vstd::arithmetic::div_mod::lemma_fundamental_div_mod_converse(here + len, len, 1, here);
    } else {
        vstd::arithmetic::div_mod::lemma_fundamental_div_mod_converse(
            here + d,
            len,
            1,
            here + d - len,
        );
        vstd::arithmetic::div_mod::lemma_small_mod(here as nat, len as nat);
    }
}

/// A frame step moves by its count, forwards or back, and stops at the ends of
/// the timeline. It stays on its track, and stepping back as far as forward
/// returns to the same frame.
pub proof fn a_frame_step_moves_by_its_count<A: PredicateIndex>(ctx: MotionCtx<'_, A>, n: nat)
    requires
        ctx.timeline.wf(),
        n >= 1,
        ctx.start_frame().0 <= ctx.final_frame(),
    ensures
        ({
            let at = ctx.start_frame().0 as int;
            let last = if ctx.timeline.spec_duration() == 0 {
                0
            } else {
                ctx.timeline.spec_duration() - 1
            };
            let on = motion_landing(BuiltinMotion::Frame(Direction::Forward), ctx, n);
            let back = motion_landing(BuiltinMotion::Frame(Direction::Backward), ctx, n);
            let to = |f: int|
                Landing::At(Position { frame: Frame(f as u64), track: ctx.start_track() });
            &&& at + n <= last ==> on == to(at + n)
            &&& at + n > last ==> on == to(last)
            &&& n <= at ==> back == to(at - n)
            &&& n > at ==> back == to(0)
        }),
{
}

proof fn lemma_cuts(clips: Seq<Clip>, n: nat, f: Frame)
    requires
        n <= clips.len(),
        forall|i: int| 0 <= i < clips.len() ==> (#[trigger] clips[i]).wf(),
    ensures
        cuts_of(clips, n).contains(f) <==> exists|i: int|
            0 <= i < n && ((#[trigger] clips[i]).start == f || clips[i].start.0
                + clips[i].duration.0 == f.0),
    decreases n,
{
    let now = cuts_of(clips, n);
    if n > 0 {
        let before = cuts_of(clips, (n - 1) as nat);
        lemma_cuts(clips, (n - 1) as nat, f);
        let c = clips[n - 1];
        assert(c.wf());
        assert(now[before.len() as int] == c.start);
        assert(now[before.len() as int + 1].0 == c.start.0 + c.duration.0);
        if before.contains(f) {
            let k = choose|k: int| 0 <= k < before.len() && before[k] == f;
            assert(now[k] == f);
        }
        if now.contains(f) {
            let k = choose|k: int| 0 <= k < now.len() && now[k] == f;
            if k < before.len() {
                assert(before[k] == f);
            }
        }
    }
}

/// A step to a cut lands on the nearest start or end of a clip of the focused
/// track that lies beyond the playhead, and is refused where there is none.
pub proof fn a_boundary_step_lands_on_the_nearest_cut<A: PredicateIndex>(
    ctx: MotionCtx<'_, A>,
    here: int,
    dir: Direction,
)
    requires
        ctx.timeline.wf(),
        0 <= here < ctx.timeline.tracks@.len(),
        ctx.timeline.tracks@[here].id == ctx.start_track(),
    ensures
        ({
            let clips = ctx.timeline.tracks@[here].clips@;
            let at = ctx.start_frame();
            let beyond = |f: int|
                if dir == Direction::Forward {
                    f > at.0
                } else {
                    f < at.0
                };
            let nearer = |f: int, g: int|
                if dir == Direction::Forward {
                    f < g
                } else {
                    f > g
                };
            match motion_landing(BuiltinMotion::ClipBoundary(dir), ctx, 1) {
                Landing::At(p) => {
                    &&& p.track == ctx.start_track()
                    &&& beyond(p.frame.0 as int)
                    &&& exists|i: int|
                        0 <= i < clips.len() && ((#[trigger] clips[i]).start == p.frame
                            || clips[i].start.0 + clips[i].duration.0 == p.frame.0)
                    &&& forall|i: int|
                        0 <= i < clips.len() ==> {
                            let s = (#[trigger] clips[i]).start.0 as int;
                            let e = s + clips[i].duration.0;
                            &&& beyond(s) ==> !nearer(s, p.frame.0 as int)
                            &&& beyond(e) ==> !nearer(e, p.frame.0 as int)
                        }
                },
                Landing::Refused(r) => r == Refusal::NoBoundary && forall|i: int|
                    0 <= i < clips.len() ==> !beyond((#[trigger] clips[i]).start.0 as int)
                        && !beyond(clips[i].start.0 + clips[i].duration.0),
                _ => false,
            }
        }),
{
    let track = ctx.timeline.tracks@[here];
    let clips = track.clips@;
    let at = ctx.start_frame();
    let points = cuts(track);
    ctx.timeline.lemma_position(here);
    assert(track.wf());
    a_step_is_the_nearest(points, at, dir);
    reveal_with_fuel(crate::motion::jump::travel, 3);
    assert forall|i: int| 0 <= i < clips.len() implies {
        let s = (#[trigger] clips[i]).start;
        let e = Frame((s.0 + clips[i].duration.0) as u64);
        points.contains(s) && points.contains(e)
    } by {
        assert(clips[i].wf());
        let s = clips[i].start;
        let e = Frame((s.0 + clips[i].duration.0) as u64);
        lemma_cuts(clips, clips.len(), s);
        lemma_cuts(clips, clips.len(), e);
    }
    if let Some(f) = crate::motion::jump::next_point(points, at, dir) {
        lemma_cuts(clips, clips.len(), f);
    }
    assert forall|i: int| 0 <= i < clips.len() implies {
        let s = (#[trigger] clips[i]).start;
        let e = Frame((s.0 + clips[i].duration.0) as u64);
        &&& clips[i].wf()
        &&& is_beyond(s, at, dir) ==> crate::motion::jump::next_point(points, at, dir) is Some
            && !is_beyond(crate::motion::jump::next_point(points, at, dir)->Some_0, s, dir)
        &&& is_beyond(e, at, dir) ==> crate::motion::jump::next_point(points, at, dir) is Some
            && !is_beyond(crate::motion::jump::next_point(points, at, dir)->Some_0, e, dir)
    } by {
        let s = clips[i].start;
        let e = Frame((s.0 + clips[i].duration.0) as u64);
        let a = choose|a: int| 0 <= a < points.len() && points[a] == s;
        let b = choose|b: int| 0 <= b < points.len() && points[b] == e;
        assert(points[a] == s && points[b] == e);
    }
}

/// The end of a clip is its last frame: a step to it lands on the last frame of
/// a clip of the focused track, beyond the playhead.
pub proof fn a_clip_end_is_its_last_frame<A: PredicateIndex>(
    ctx: MotionCtx<'_, A>,
    here: int,
    n: nat,
)
    requires
        ctx.timeline.wf(),
        0 <= here < ctx.timeline.tracks@.len(),
        ctx.timeline.tracks@[here].id == ctx.start_track(),
        n >= 1,
    ensures
        ({
            let clips = ctx.timeline.tracks@[here].clips@;
            motion_landing(BuiltinMotion::ClipEnd, ctx, n) matches Landing::At(p) ==> exists|i: int|
                0 <= i < clips.len() && (#[trigger] clips[i]).start.0 + clips[i].duration.0
                    == p.frame.0 + 1
        }),
        ({
            let clips = ctx.timeline.tracks@[here].clips@;
            forall|i: int|
                0 <= i < clips.len() && (#[trigger] clips[i]).start.0 + clips[i].duration.0
                    > ctx.start_frame().0 + 1 ==> motion_landing(BuiltinMotion::ClipEnd, ctx, n)
                    is At
        }),
{
    let track = ctx.timeline.tracks@[here];
    let clips = track.clips@;
    let points = clip_ends(track);
    ctx.timeline.lemma_position(here);
    assert(track.wf());
    a_destination_is_a_point(points, ctx.start_frame(), Direction::Forward, n);
    a_step_is_the_nearest(points, ctx.start_frame(), Direction::Forward);
    if let Landing::At(p) = motion_landing(BuiltinMotion::ClipEnd, ctx, n) {
        let i = choose|i: int| 0 <= i < points.len() && points[i] == p.frame;
        assert(clips[i].wf());
        assert(points[i].0 == clips[i].start.0 + clips[i].duration.0 - 1);
    }
    assert forall|i: int|
        0 <= i < clips.len() && (#[trigger] clips[i]).start.0 + clips[i].duration.0
            > ctx.start_frame().0 + 1 implies motion_landing(BuiltinMotion::ClipEnd, ctx, n)
        is At by {
        assert(clips[i].wf());
        assert(is_beyond(points[i], ctx.start_frame(), Direction::Forward));
    }
}

/// The matching edit of the start of a clip is its last frame, and that of any
/// other of its frames is its start. Outside every clip there is none.
pub proof fn matching_edits_are_the_ends_of_a_clip<A: PredicateIndex>(
    ctx: MotionCtx<'_, A>,
    here: int,
    k: int,
    n: nat,
)
    requires
        ctx.timeline.wf(),
        0 <= here < ctx.timeline.tracks@.len(),
        ctx.timeline.tracks@[here].id == ctx.start_track(),
        0 <= k < ctx.timeline.tracks@[here].clips@.len(),
    ensures
        ({
            let clip = ctx.timeline.tracks@[here].clips@[k];
            let at = ctx.start_frame().0;
            let lands = motion_landing(BuiltinMotion::MatchingEdit, ctx, n);
            &&& at == clip.start.0 ==> (lands matches Landing::At(p) && p.frame.0 + 1
                == clip.start.0 + clip.duration.0 && p.track == ctx.start_track())
            &&& clip.start.0 < at < clip.start.0 + clip.duration.0 ==> (lands matches Landing::At(p)
                && p.frame == clip.start && p.track == ctx.start_track())
        }),
{
    let track = ctx.timeline.tracks@[here];
    let clip = track.clips@[k];
    ctx.timeline.lemma_position(here);
    assert(track.wf());
    assert(clip.wf());
    if clip.start.0 <= ctx.start_frame().0 < clip.start.0 + clip.duration.0 {
        assert(clip.covers(ctx.start_frame()));
        let j = track.covering(ctx.start_frame())->Some_0;
        track.lemma_covering_unique(ctx.start_frame(), j, k);
    }
}

/// A mark is gone to where it was set: its frame, on its track where it has
/// one. Of two marks of a name the later counts, and a name without a mark is
/// refused.
pub proof fn a_mark_is_where_it_was_set<A: PredicateIndex>(
    ctx: MotionCtx<'_, A>,
    name: char,
    i: int,
    n: nat,
)
    requires
        0 <= i < ctx.timeline.marks@.len(),
        ctx.timeline.marks@[i].name == name,
        forall|j: int|
            i < j < ctx.timeline.marks@.len() ==> (#[trigger] ctx.timeline.marks@[j]).name != name,
    ensures
        motion_landing(BuiltinMotion::Mark(name), ctx, n) matches Landing::At(p) && {
            &&& p.frame == ctx.timeline.marks@[i].frame
            &&& ctx.timeline.marks@[i].track matches Some(t) ==> p.track == t
            &&& ctx.timeline.marks@[i].track is None ==> p.track == ctx.start_track()
        },
{
    lemma_mark(ctx.timeline.marks@, name, i);
}

proof fn lemma_mark(marks: Seq<Mark>, name: char, i: int)
    requires
        0 <= i < marks.len(),
        marks[i].name == name,
        forall|j: int| i < j < marks.len() ==> (#[trigger] marks[j]).name != name,
    ensures
        mark_at(marks, name) == Some(i),
    decreases marks.len(),
{
    if i < marks.len() - 1 {
        assert(marks[marks.len() - 1].name != name);
        let front = marks.drop_last();
        assert forall|j: int| i < j < front.len() implies (#[trigger] front[j]).name != name by {
            assert(marks[j].name != name);
        }
        lemma_mark(front, name, i);
    }
}

/// A name that no mark has is refused.
pub proof fn a_missing_mark_is_refused<A: PredicateIndex>(
    ctx: MotionCtx<'_, A>,
    name: char,
    n: nat,
)
    requires
        forall|j: int|
            0 <= j < ctx.timeline.marks@.len() ==> (#[trigger] ctx.timeline.marks@[j]).name != name,
    ensures
        motion_landing(BuiltinMotion::Mark(name), ctx, n) == Landing::Refused(
            Refusal::NoSuchMark(name),
        ),
{
    lemma_no_mark(ctx.timeline.marks@, name);
}

proof fn lemma_no_mark(marks: Seq<Mark>, name: char)
    requires
        forall|j: int| 0 <= j < marks.len() ==> (#[trigger] marks[j]).name != name,
    ensures
        mark_at(marks, name) is None,
    decreases marks.len(),
{
    if marks.len() > 0 {
        assert(marks[marks.len() - 1].name != name);
        let front = marks.drop_last();
        assert forall|j: int| 0 <= j < front.len() implies (#[trigger] front[j]).name != name by {
            assert(marks[j].name != name);
        }
        lemma_no_mark(front, name);
    }
}

/// The ends of the timeline are its first frame and its last.
pub proof fn the_ends_of_the_timeline<A: PredicateIndex>(ctx: MotionCtx<'_, A>, n: nat)
    requires
        ctx.timeline.wf(),
    ensures
        motion_landing(BuiltinMotion::TimelineStart, ctx, n) == Landing::At(
            Position { frame: Frame(0), track: ctx.start_track() },
        ),
        motion_landing(BuiltinMotion::TimelineEnd, ctx, n) matches Landing::At(p) && {
            &&& p.track == ctx.start_track()
            &&& forall|t: int, c: int|
                0 <= t < ctx.timeline.tracks@.len() && 0 <= c
                    < ctx.timeline.tracks@[t].clips@.len() ==> (
                #[trigger] ctx.timeline.tracks@[t].clips@[c]).start.0
                    + ctx.timeline.tracks@[t].clips@[c].duration.0 <= p.frame.0 + 1
            &&& p.frame.0 == 0 || exists|t: int, c: int|
                0 <= t < ctx.timeline.tracks@.len() && 0 <= c
                    < ctx.timeline.tracks@[t].clips@.len() && (
                #[trigger] ctx.timeline.tracks@[t].clips@[c]).start.0
                    + ctx.timeline.tracks@[t].clips@[c].duration.0 == p.frame.0 + 1
        },
{
    let tl = *ctx.timeline;
    let n = tl.tracks@.len();
    lemma_longest(tl, n);
    assert(tl.spec_duration() == tl.duration_of(n));
    assert forall|t: int, c: int|
        0 <= t < tl.tracks@.len() && 0 <= c < tl.tracks@[t].clips@.len() implies (
    #[trigger] tl.tracks@[t].clips@[c]).start.0 + tl.tracks@[t].clips@[c].duration.0
        <= tl.spec_duration() by {
        tl.lemma_duration_bounds(n, t, c);
    }
}

proof fn lemma_longest(tl: Timeline, n: nat)
    requires
        tl.wf(),
        n <= tl.tracks@.len(),
    ensures
        0 <= tl.duration_of(n) <= u64::MAX,
        tl.duration_of(n) == 0 || exists|t: int, c: int|
            0 <= t < n && 0 <= c < tl.tracks@[t].clips@.len() && (
            #[trigger] tl.tracks@[t].clips@[c]).spec_end() == tl.duration_of(n),
    decreases n,
{
    if n > 0 {
        lemma_longest(tl, (n - 1) as nat);
        let clips = tl.tracks@[n - 1].clips@;
        assert(tl.tracks@[n - 1].wf());
        if clips.len() > 0 {
            assert(clips[clips.len() - 1].wf());
            assert(tl.tracks@[n - 1].clips@[clips.len() - 1].spec_end()
                == clips.last().spec_end());
        }
    }
}

/// A search goes from match to match: one for several starts again at the
/// match before it, and lands on the searched track. What is not known yet is
/// never guessed, and a search that finds nothing at once is refused.
pub proof fn a_search_goes_from_match_to_match<A: PredicateIndex>(
    ctx: MotionCtx<'_, A>,
    p: Predicate,
    dir: Direction,
    f: Frame,
    n: nat,
)
    requires
        n >= 1,
    ensures
        ({
            let from = ctx.start_frame();
            let lands = motion_landing(BuiltinMotion::Predicate(p, dir), ctx, n);
            &&& ctx.ask(p, from, dir) == Answer::Pending ==> lands == Landing::Pending
            &&& ctx.ask(p, from, dir) == Answer::NoMatch ==> lands == Landing::Refused(
                Refusal::NoPredicateMatch,
            )
            &&& ctx.ask(p, from, dir) == Answer::Found(f) && n == 1 ==> lands == Landing::At(
                Position { frame: f, track: p.searched() },
            )
            &&& ctx.ask(p, from, dir) == Answer::Found(f) && n > 1 && ctx.ask(p, f, dir)
                == Answer::NoMatch ==> lands == Landing::At(
                Position { frame: f, track: p.searched() },
            )
            &&& forall|there: MotionCtx<'_, A>|
                ctx.ask(p, from, dir) == Answer::Found(f) && n > 1 && there.analysis
                    == ctx.analysis && #[trigger] there.start_frame() == f && (ctx.ask(p, f, dir)
                    is Found) ==> lands == motion_landing(
                    BuiltinMotion::Predicate(p, dir),
                    there,
                    (n - 1) as nat,
                )
        }),
{
    let from = ctx.start_frame();
    reveal_with_fuel(searched, 3);
    if ctx.ask(p, from, dir) == Answer::Found(f) && n > 1 {
        assert forall|there: MotionCtx<'_, A>|
            there.analysis == ctx.analysis && #[trigger] there.start_frame() == f && (ctx.ask(
                p,
                f,
                dir,
            ) is Found) implies motion_landing(BuiltinMotion::Predicate(p, dir), ctx, n)
            == motion_landing(BuiltinMotion::Predicate(p, dir), there, (n - 1) as nat) by {
            let g = ctx.ask(p, f, dir)->Found_0;
            lemma_search_context(ctx, there, p, dir, g, true, (n - 2) as nat);
        }
    }
}

proof fn lemma_search_context<A: PredicateIndex>(
    a: MotionCtx<'_, A>,
    b: MotionCtx<'_, A>,
    p: Predicate,
    dir: Direction,
    from: Frame,
    moved: bool,
    n: nat,
)
    requires
        a.analysis == b.analysis,
    ensures
        searched(a, p, dir, from, moved, n) == searched(b, p, dir, from, moved, n),
    decreases n,
{
    if n > 0 {
        if let Answer::Found(f) = a.ask(p, from, dir) {
            lemma_search_context(a, b, p, dir, f, true, (n - 1) as nat);
        }
    }
}

} // verus!
