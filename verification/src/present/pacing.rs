//! Pacing the picture against the sound.
//!
//! The sound is never late, so a frame that arrives behind the clock is a
//! step towards it, a frame ahead of the clock waits, and the picture never
//! goes back.
use vstd::prelude::*;

use crate::frames::VideoFrame;
use crate::model::Frame;
use crate::motion::target::Direction;
use crate::present::error::PresentError;

verus! {

/// What was decided for one tick.
#[derive(Clone, Copy, Debug, PartialEq, Eq, Structural)]
pub enum Pace {
    /// A fresh frame is on screen.
    Presented(Frame),
    /// Nothing new was due; the previous frame stays up.
    Repeated(Frame),
    /// Nothing has ever been presented and nothing arrived.
    Empty,
}

/// Pacing counters.
#[derive(Clone, Copy, Debug, PartialEq, Eq, Structural)]
pub struct PaceStats {
    pub presented: u64,
    /// Frames discarded for being behind the clock.
    pub dropped_late: u64,
    /// Ticks on which the last frame was held.
    pub repeated: u64,
}

/// Where frames come from. A source may answer as it likes.
pub trait PreviewSource {
    /// The frame the sound is at, or `None` while it is not running.
    fn audio_clock_position(&self) -> Option<Frame>;

    /// The next frame of the queue, if one is ready.
    fn next_preview_frame(&mut self) -> Result<Option<VideoFrame>, String>;
}

/// What a source answered when it was asked for a frame.
pub enum Pulled {
    Frame(VideoFrame),
    Nothing,
    Failed(Seq<char>),
}

/// Whether `states` are those that a source goes through while it is asked for
/// `answers`: one before each answer, and one after the last.
pub open spec fn passes_through<S>(states: Seq<S>, answers: Seq<Pulled>) -> bool {
    states.len() == answers.len() + 1
}

/// Holds the frame on screen and decides what replaces it.
#[derive(Debug)]
pub struct Pacer {
    current: Option<VideoFrame>,
    /// Pulled but not yet due.
    pending: Option<VideoFrame>,
    stats: PaceStats,
    max_pulls_per_tick: u32,
    direction: Direction,
    /// Whether anything may replace the picture, as after a restart.
    replaceable: bool,
}

/// The state of a [`Pacer`].
pub struct PacerView {
    pub current: Option<VideoFrame>,
    pub pending: Option<VideoFrame>,
    pub stats: PaceStats,
    pub max_pulls: u32,
    pub direction: Direction,
    pub replaceable: bool,
}

/// The state of a pacer that has seen no frame.
pub open spec fn no_frames() -> PacerView {
    PacerView {
        current: None,
        pending: None,
        stats: PaceStats { presented: 0, dropped_late: 0, repeated: 0 },
        max_pulls: 8,
        direction: Direction::Forward,
        replaceable: false,
    }
}

/// A counter that stops at its end.
pub open spec fn plus(n: u64, k: nat) -> u64 {
    if n + k > u64::MAX { u64::MAX } else { (n + k) as u64 }
}

/// Whether the clock has not reached `position` yet.
pub open spec fn is_ahead(direction: Direction, position: Frame, clock: Frame) -> bool {
    match direction {
        Direction::Forward => position.0 > clock.0,
        Direction::Backward => position.0 < clock.0,
    }
}

/// Whether the picture at `shown` has already reached or passed `position`.
pub open spec fn is_overtaken(direction: Direction, position: Frame, shown: Frame) -> bool {
    match direction {
        Direction::Forward => position.0 <= shown.0,
        Direction::Backward => position.0 >= shown.0,
    }
}

/// What pulling frames for one tick leads to.
pub struct Drained {
    /// The newest frame that is due.
    pub fresh: Option<VideoFrame>,
    /// A frame that is not due yet.
    pub pending: Option<VideoFrame>,
    /// Frames that a newer one replaced.
    pub dropped: nat,
    /// Answers that were asked for.
    pub taken: nat,
    pub failure: Option<Seq<char>>,
}

/// Pulling at most `pulls` frames: until the source has none, one is ahead of
/// the clock, or one is exactly due. A due frame replaces an older one.
pub open spec fn drain(
    direction: Direction,
    clock: Frame,
    fresh: Option<VideoFrame>,
    answers: Seq<Pulled>,
    pulls: nat,
) -> Drained
    decreases pulls,
{
    if pulls == 0 {
        Drained { fresh, pending: None, dropped: 0, taken: 0, failure: None }
    } else {
        match answers[0] {
            Pulled::Failed(reason) => Drained {
                fresh,
                pending: None,
                dropped: 0,
                taken: 1,
                failure: Some(reason),
            },
            Pulled::Nothing => Drained { fresh, pending: None, dropped: 0, taken: 1, failure: None },
            Pulled::Frame(f) => if is_ahead(direction, f.position, clock) {
                Drained { fresh, pending: Some(f), dropped: 0, taken: 1, failure: None }
            } else {
                let dropped: nat = if fresh is Some { 1 } else { 0 };
                if f.position == clock {
                    Drained { fresh: Some(f), pending: None, dropped, taken: 1, failure: None }
                } else {
                    let rest = drain(
                        direction,
                        clock,
                        Some(f),
                        answers.drop_first(),
                        (pulls - 1) as nat,
                    );
                    Drained { dropped: dropped + rest.dropped, taken: 1 + rest.taken, ..rest }
                }
            },
        }
    }
}

/// What one tick does.
pub struct Paced {
    pub pacer: PacerView,
    pub result: Result<Pace, Seq<char>>,
    /// Answers that were asked for.
    pub taken: nat,
}

/// The picture is held.
pub open spec fn held(p: PacerView) -> Paced {
    match p.current {
        Some(f) => Paced {
            pacer: PacerView {
                stats: PaceStats { repeated: plus(p.stats.repeated, 1), ..p.stats },
                ..p
            },
            result: Ok(Pace::Repeated(f.position)),
            taken: 0,
        },
        None => Paced { pacer: p, result: Ok(Pace::Empty), taken: 0 },
    }
}

/// What is shown once pulling is over: the fresh frame, unless the picture has
/// already overtaken it.
pub open spec fn settled(p: PacerView, d: Drained) -> Paced {
    let counted = PacerView {
        pending: d.pending,
        stats: PaceStats { dropped_late: plus(p.stats.dropped_late, d.dropped), ..p.stats },
        ..p
    };
    match d.failure {
        Some(reason) => Paced {
            pacer: PacerView { pending: None, ..counted },
            result: Err(reason),
            taken: d.taken,
        },
        None => match d.fresh {
            None => Paced { taken: d.taken, ..held(counted) },
            Some(f) => if !p.replaceable && p.current is Some && is_overtaken(
                p.direction,
                f.position,
                p.current->Some_0.position,
            ) {
                Paced {
                    taken: d.taken,
                    ..held(
                        PacerView {
                            stats: PaceStats {
                                dropped_late: plus(counted.stats.dropped_late, 1),
                                ..counted.stats
                            },
                            ..counted
                        },
                    )
                }
            } else {
                Paced {
                    pacer: PacerView {
                        current: Some(f),
                        replaceable: false,
                        stats: PaceStats {
                            presented: plus(counted.stats.presented, 1),
                            ..counted.stats
                        },
                        ..counted
                    },
                    result: Ok(Pace::Presented(f.position)),
                    taken: d.taken,
                }
            },
        },
    }
}

/// One tick, where the source gives `answers`. A stopped clock holds the
/// picture and pulls nothing, and so does a frame that is still ahead.
pub open spec fn paced(p: PacerView, clock: Option<Frame>, answers: Seq<Pulled>) -> Paced {
    match clock {
        None => held(p),
        Some(clock) => match p.pending {
            Some(f) => if is_ahead(p.direction, f.position, clock) {
                held(p)
            } else {
                settled(p, drain(p.direction, clock, Some(f), answers, p.max_pulls as nat))
            },
            None => settled(p, drain(p.direction, clock, None, answers, p.max_pulls as nat)),
        },
    }
}

/// Whether a tick that asked for `answers` ended as it should.
pub open spec fn tick_outcome(
    before: PacerView,
    clock: Option<Frame>,
    answers: Seq<Pulled>,
    after: PacerView,
    result: Result<Pace, PresentError>,
) -> bool {
    let t = paced(before, clock, answers);
    &&& answers.len() == t.taken
    &&& after == t.pacer
    &&& match result {
        Ok(pace) => t.result == Ok::<Pace, Seq<char>>(pace),
        Err(e) => e matches PresentError::Pull(reason) && t.result == Err::<Pace, Seq<char>>(
            reason@,
        ),
    }
}

/// A tick that is still pulling frames.
#[derive(Debug)]
pub struct Pass {
    pub clock: Frame,
    /// The newest frame that is due.
    pub fresh: Option<VideoFrame>,
    /// How many frames may still be pulled.
    pub left: u32,
}

/// What a tick does next.
#[derive(Debug)]
pub enum Step {
    /// The tick is over.
    Shown(Pace),
    /// The source is asked for a frame.
    Pull(Pass),
}

/// An answer of a source, as it is modelled.
pub open spec fn pulled_view(r: Result<Option<VideoFrame>, String>) -> Pulled {
    match r {
        Ok(Some(f)) => Pulled::Frame(f),
        Ok(None) => Pulled::Nothing,
        Err(reason) => Pulled::Failed(reason@),
    }
}

/// A tick that ends: the fresh frame is shown, unless the picture has already
/// overtaken it.
pub open spec fn finished(p: PacerView, fresh: Option<VideoFrame>) -> (PacerView, Step) {
    let s = settled(
        p,
        Drained { fresh, pending: p.pending, dropped: 0, taken: 0, failure: None },
    );
    (s.pacer, Step::Shown(s.result->Ok_0))
}

/// A tick that goes on for as long as it may pull.
pub open spec fn continued(p: PacerView, pass: Pass) -> (PacerView, Step) {
    if pass.left == 0 {
        finished(p, pass.fresh)
    } else {
        (p, Step::Pull(pass))
    }
}

/// How a tick begins: a stopped clock holds the picture, and so does a frame
/// that is still ahead; otherwise the frame that was held back is due, and
/// the source is asked for more.
pub open spec fn begun(p: PacerView, clock: Option<Frame>) -> (PacerView, Step) {
    match clock {
        None => (held(p).pacer, Step::Shown(held(p).result->Ok_0)),
        Some(c) => if p.pending matches Some(f) && is_ahead(p.direction, f.position, c) {
            (held(p).pacer, Step::Shown(held(p).result->Ok_0))
        } else {
            continued(
                PacerView { pending: None, ..p },
                Pass { clock: c, fresh: p.pending, left: p.max_pulls },
            )
        },
    }
}

/// How a tick goes on after an answer of the source. A failure ends it, and so
/// does a source that has none; a frame ahead of the clock is held back; a
/// frame that is due replaces an older one, and ends the tick where it is the
/// one the clock asks for.
pub open spec fn answered(p: PacerView, pass: Pass, answer: Pulled) -> (
    PacerView,
    Result<Step, Seq<char>>,
) {
    match answer {
        Pulled::Failed(reason) => (PacerView { pending: None, ..p }, Err(reason)),
        Pulled::Nothing => (finished(p, pass.fresh).0, Ok(finished(p, pass.fresh).1)),
        Pulled::Frame(f) => if is_ahead(p.direction, f.position, pass.clock) {
            let q = finished(PacerView { pending: Some(f), ..p }, pass.fresh);
            (q.0, Ok(q.1))
        } else {
            let counted = PacerView {
                stats: PaceStats {
                    dropped_late: plus(
                        p.stats.dropped_late,
                        if pass.fresh is Some {
                            1
                        } else {
                            0
                        },
                    ),
                    ..p.stats
                },
                ..p
            };
            let q = if f.position == pass.clock {
                finished(counted, Some(f))
            } else {
                continued(
                    counted,
                    Pass { clock: pass.clock, fresh: Some(f), left: (pass.left - 1) as u32 },
                )
            };
            (q.0, Ok(q.1))
        },
    }
}

/// What the rest of a tick does, where the source gives `answers`.
spec fn rest_of(p: PacerView, pass: Pass, answers: Seq<Pulled>) -> Paced {
    settled(p, drain(p.direction, pass.clock, pass.fresh, answers, pass.left as nat))
}

/// Taking answers one at a time comes to taking them all at once.
proof fn lemma_answered(p: PacerView, pass: Pass, answer: Pulled, a: Seq<Pulled>)
    requires
        p.pending is None,
        pass.left > 0,
    ensures
        ({
            let (after, next) = answered(p, pass, answer);
            let all = rest_of(p, pass, seq![answer] + a);
            match next {
                Err(reason) => all == (Paced { pacer: after, result: Err(reason), taken: 1 }),
                Ok(Step::Shown(pace)) => all == (Paced { pacer: after, result: Ok(pace), taken: 1 }),
                Ok(Step::Pull(on)) => after.pending is None && on.left < pass.left && all == (Paced {
                    taken: 1 + rest_of(after, on, a).taken,
                    ..rest_of(after, on, a)
                }),
            }
        }),
{
    let s = seq![answer] + a;
    assert(s[0] == answer);
    assert(s.drop_first() =~= a);
    match answer {
        Pulled::Frame(f) => {
            if !is_ahead(p.direction, f.position, pass.clock) && f.position != pass.clock {
                let left = (pass.left - 1) as nat;
                let d = drain(p.direction, pass.clock, Some(f), a, left);
                if left == 0 {
                    assert(d == (Drained {
                        fresh: Some(f),
                        pending: None,
                        dropped: 0,
                        taken: 0,
                        failure: None,
                    }));
                }
            }
        },
        _ => {},
    }
}

proof fn lemma_begun(p: PacerView, clock: Option<Frame>, a: Seq<Pulled>)
    ensures
        match begun(p, clock) {
            (after, Step::Shown(pace)) => paced(p, clock, a) == (Paced {
                pacer: after,
                result: Ok(pace),
                taken: 0,
            }),
            (after, Step::Pull(pass)) => after.pending is None && pass.left > 0 && paced(
                p,
                clock,
                a,
            ) == rest_of(after, pass, a),
        },
{
}

fn ahead(direction: Direction, position: Frame, clock: Frame) -> (b: bool)
    ensures
        b == is_ahead(direction, position, clock),
{
    match direction {
        Direction::Forward => position.0 > clock.0,
        Direction::Backward => position.0 < clock.0,
    }
}

fn overtaken(direction: Direction, position: Frame, shown: Frame) -> (b: bool)
    ensures
        b == is_overtaken(direction, position, shown),
{
    match direction {
        Direction::Forward => position.0 <= shown.0,
        Direction::Backward => position.0 >= shown.0,
    }
}

impl Pacer {
    pub closed spec fn view(self) -> PacerView {
        PacerView {
            current: self.current,
            pending: self.pending,
            stats: self.stats,
            max_pulls: self.max_pulls_per_tick,
            direction: self.direction,
            replaceable: self.replaceable,
        }
    }

    pub fn new() -> (p: Self)
        ensures
            p.view() == no_frames(),
    {
        Pacer {
            current: None,
            pending: None,
            stats: PaceStats { presented: 0, dropped_late: 0, repeated: 0 },
            max_pulls_per_tick: 8,
            direction: Direction::Forward,
            replaceable: false,
        }
    }

    /// Bounds how many frames one tick pulls; at least one.
    pub fn set_max_pulls_per_tick(&mut self, n: u32)
        ensures
            final(self).view() == (PacerView {
                max_pulls: if n < 1 { 1 } else { n },
                ..old(self).view()
            }),
    {
        self.max_pulls_per_tick = if n < 1 {
            1
        } else {
            n
        };
    }

    pub fn stats(&self) -> (s: PaceStats)
        ensures
            s == self.view().stats,
    {
        self.stats
    }

    /// The frame on screen.
    pub fn current(&self) -> (f: Option<&VideoFrame>)
        ensures
            match f {
                Some(f) => self.view().current == Some(*f),
                None => self.view().current is None,
            },
    {
        self.current.as_ref()
    }

    /// Which way the clock runs.
    pub fn set_direction(&mut self, direction: Direction)
        ensures
            final(self).view() == (PacerView { direction, ..old(self).view() }),
    {
        self.direction = direction;
    }

    /// A new pass starts: the picture stays, but anything may replace it, and
    /// a frame held back from the pass before is forgotten.
    pub fn restart(&mut self)
        ensures
            final(self).view() == (PacerView {
                pending: None,
                replaceable: true,
                ..old(self).view()
            }),
    {
        self.pending = None;
        self.replaceable = true;
    }

    /// Puts a frame up directly: scrubbing has no clock to pace against.
    pub fn show(&mut self, frame: VideoFrame)
        ensures
            final(self).view() == (PacerView {
                current: Some(frame),
                stats: PaceStats {
                    presented: plus(old(self).view().stats.presented, 1),
                    ..old(self).view().stats
                },
                ..old(self).view()
            }),
    {
        self.stats.presented = self.stats.presented.saturating_add(1);
        self.current = Some(frame);
    }

    pub fn clear(&mut self)
        ensures
            final(self).view() == (PacerView { current: None, pending: None, ..old(self).view() }),
    {
        self.current = None;
        self.pending = None;
    }

    fn hold(&mut self) -> (pace: Pace)
        ensures
            final(self).view() == held(old(self).view()).pacer,
            held(old(self).view()).result == Ok::<Pace, Seq<char>>(pace),
    {
        match &self.current {
            Some(f) => {
                let at = f.position;
                self.stats.repeated = self.stats.repeated.saturating_add(1);
                Pace::Repeated(at)
            },
            None => Pace::Empty,
        }
    }

    /// Shows a fresh frame, unless the picture has already overtaken it.
    fn settle(&mut self, fresh: Option<VideoFrame>) -> (pace: Pace)
        ensures
            ({
                let s = settled(
                    PacerView { pending: None, ..old(self).view() },
                    Drained {
                        fresh,
                        pending: old(self).view().pending,
                        dropped: 0,
                        taken: 0,
                        failure: None,
                    },
                );
                &&& final(self).view() == s.pacer
                &&& s.result == Ok::<Pace, Seq<char>>(pace)
            }),
    {
        match fresh {
            None => self.hold(),
            Some(frame) => {
                let at = frame.position;
                let late = match &self.current {
                    Some(cur) => !self.replaceable && overtaken(self.direction, at, cur.position),
                    None => false,
                };
                if late {
                    self.stats.dropped_late = self.stats.dropped_late.saturating_add(1);
                    return self.hold();
                }
                self.stats.presented = self.stats.presented.saturating_add(1);
                self.current = Some(frame);
                self.replaceable = false;
                Pace::Presented(at)
            },
        }
    }

    /// Ends a tick once no frame may be pulled any more.
    fn go_on(&mut self, pass: Pass) -> (step: Step)
        ensures
            (final(self).view(), step) == continued(old(self).view(), pass),
    {
        if pass.left == 0 {
            Step::Shown(self.settle(pass.fresh))
        } else {
            Step::Pull(pass)
        }
    }

    /// Begins a tick. `clock` is the position of the sound; `None` means that
    /// it is not running.
    pub fn begin(&mut self, clock: Option<Frame>) -> (step: Step)
        ensures
            (final(self).view(), step) == begun(old(self).view(), clock),
    {
        let now = match clock {
            Some(c) => c,
            None => return Step::Shown(self.hold()),
        };
        let held_back = self.pending.take();
        if let Some(f) = held_back {
            if ahead(self.direction, f.position, now) {
                self.pending = Some(f);
                return Step::Shown(self.hold());
            }
            let left = self.max_pulls_per_tick;
            return self.go_on(Pass { clock: now, fresh: Some(f), left });
        }
        let left = self.max_pulls_per_tick;
        self.go_on(Pass { clock: now, fresh: None, left })
    }

    /// Goes on with a tick after an answer of the source.
    pub fn answer(&mut self, pass: Pass, pulled: Result<Option<VideoFrame>, String>) -> (next:
        Result<Step, PresentError>)
        requires
            pass.left > 0,
        ensures
            ({
                let (after, told) = answered(old(self).view(), pass, pulled_view(pulled));
                &&& final(self).view() == after
                &&& match next {
                    Ok(step) => told == Ok::<Step, Seq<char>>(step),
                    Err(e) => e matches PresentError::Pull(reason) && told == Err::<
                        Step,
                        Seq<char>,
                    >(reason@),
                }
            }),
    {
        match pulled {
            Err(reason) => {
                self.pending = None;
                Err(PresentError::Pull(reason))
            },
            Ok(None) => Ok(Step::Shown(self.settle(pass.fresh))),
            Ok(Some(frame)) => {
                if ahead(self.direction, frame.position, pass.clock) {
                    self.pending = Some(frame);
                    return Ok(Step::Shown(self.settle(pass.fresh)));
                }
                if pass.fresh.is_some() {
                    self.stats.dropped_late = self.stats.dropped_late.saturating_add(1);
                }
                if frame.position == pass.clock {
                    return Ok(Step::Shown(self.settle(Some(frame))));
                }
                Ok(
                    self.go_on(
                        Pass { clock: pass.clock, fresh: Some(frame), left: pass.left - 1 },
                    ),
                )
            },
        }
    }

    /// One presentation tick. `clock` is the position of the sound; `None`
    /// means that it is not running.
    pub fn tick<S: PreviewSource>(&mut self, clock: Option<Frame>, source: &mut S) -> (result: Result<
        Pace,
        PresentError,
    >)
        ensures
            exists|answers: Seq<Pulled>, states: Seq<S>|
                {
                    &&& #[trigger] tick_outcome(
                        old(self).view(),
                        clock,
                        answers,
                        final(self).view(),
                        result,
                    )
                    &&& #[trigger] passes_through(states, answers)
                    &&& states.first() == *old(source)
                    &&& states.last() == *final(source)
                    &&& forall|i: int|
                        0 <= i < answers.len() ==> exists|
                            asked: &mut S,
                            r: Result<Option<VideoFrame>, String>,
                        |
                            {
                                &&& #[trigger] call_ensures(S::next_preview_frame, (asked,), r)
                                &&& *asked == states[i]
                                &&& *final(asked) == states[i + 1]
                                &&& pulled_view(r) == #[trigger] answers[i]
                            }
                },
    {
        let ghost before = self.view();
        let ghost mut answers = Seq::<Pulled>::empty();
        let ghost mut states = seq![*source];
        let mut pass = match self.begin(clock) {
            Step::Shown(pace) => {
                proof {
                    lemma_begun(before, clock, answers);
                    assert(tick_outcome(before, clock, answers, self.view(), Ok(pace)));
                    assert(passes_through(states, answers));
                }
                return Ok(pace);
            },
            Step::Pull(pass) => pass,
        };
        proof {
            assert forall|a: Seq<Pulled>| paced(before, clock, answers + a) == (Paced {
                taken: answers.len() + (#[trigger] rest_of(self.view(), pass, a)).taken,
                ..rest_of(self.view(), pass, a)
            }) by {
                lemma_begun(before, clock, a);
                assert(answers + a =~= a);
            }
            lemma_begun(before, clock, answers);
        }
        loop
            invariant
                before == old(self).view(),
                self.view().pending is None,
                pass.left > 0,
                passes_through(states, answers),
                states.first() == *old(source),
                states.last() == *source,
                forall|i: int|
                    0 <= i < answers.len() ==> exists|
                        asked: &mut S,
                        r: Result<Option<VideoFrame>, String>,
                    |
                        {
                            &&& #[trigger] call_ensures(S::next_preview_frame, (asked,), r)
                            &&& *asked == states[i]
                            &&& *final(asked) == states[i + 1]
                            &&& pulled_view(r) == #[trigger] answers[i]
                        },
                forall|a: Seq<Pulled>|
                    paced(before, clock, answers + a) == (Paced {
                        taken: answers.len() + (#[trigger] rest_of(self.view(), pass, a)).taken,
                        ..rest_of(self.view(), pass, a)
                    }),
            decreases pass.left,
        {
            let ghost p = self.view();
            let ghost asked = pass;
            let ghost so_far = answers;
            let pulled = source.next_preview_frame();
            let ghost one = pulled_view(pulled);
            let next = self.answer(pass, pulled);
            proof {
                answers = so_far.push(one);
                states = states.push(*source);
                assert(passes_through(states, answers));
                lemma_answered(p, asked, one, Seq::empty());
                assert(seq![one] + Seq::<Pulled>::empty() =~= seq![one]);
                assert(so_far + seq![one] =~= answers);
                let all = rest_of(p, asked, seq![one]);
                assert(paced(before, clock, answers) == (Paced {
                    taken: so_far.len() + all.taken,
                    ..all
                }));
            }
            match next {
                Err(e) => {
                    let result = Err(e);
                    assert(tick_outcome(before, clock, answers, self.view(), result));
                    return result;
                },
                Ok(Step::Shown(pace)) => {
                    assert(tick_outcome(before, clock, answers, self.view(), Ok(pace)));
                    return Ok(pace);
                },
                Ok(Step::Pull(on)) => {
                    proof {
                        assert forall|a: Seq<Pulled>| paced(before, clock, answers + a) == (Paced {
                            taken: answers.len() + (#[trigger] rest_of(self.view(), on, a)).taken,
                            ..rest_of(self.view(), on, a)
                        }) by {
                            lemma_answered(p, asked, one, a);
                            assert(answers + a =~= so_far + (seq![one] + a));
                            let all = rest_of(p, asked, seq![one] + a);
                            assert(paced(before, clock, so_far + (seq![one] + a)) == (Paced {
                                taken: so_far.len() + all.taken,
                                ..all
                            }));
                        }
                    }
                    pass = on;
                },
            }
        }
    }
}

proof fn lemma_drain(
    direction: Direction,
    clock: Frame,
    fresh: Option<VideoFrame>,
    answers: Seq<Pulled>,
    pulls: nat,
)
    requires
        fresh is Some ==> !is_ahead(direction, fresh->Some_0.position, clock),
    ensures
        drain(direction, clock, fresh, answers, pulls).taken <= pulls,
        drain(direction, clock, fresh, answers, pulls).fresh matches Some(f) ==> !is_ahead(
            direction,
            f.position,
            clock,
        ),
        drain(direction, clock, fresh, answers, pulls).pending matches Some(f) ==> is_ahead(
            direction,
            f.position,
            clock,
        ),
        fresh is Some ==> drain(direction, clock, fresh, answers, pulls).fresh is Some,
    decreases pulls,
{
    if pulls > 0 {
        match answers[0] {
            Pulled::Frame(f) => {
                if !is_ahead(direction, f.position, clock) && f.position != clock {
                    lemma_drain(
                        direction,
                        clock,
                        Some(f),
                        answers.drop_first(),
                        (pulls - 1) as nat,
                    );
                }
            },
            _ => {},
        }
    }
}

/// The picture never goes back, whatever a source answers: outside a restart,
/// what is on screen after a tick has not been overtaken by what was there
/// before.
pub proof fn the_picture_never_steps_back(p: PacerView, clock: Option<Frame>, answers: Seq<Pulled>)
    requires
        !p.replaceable,
        p.current is Some,
    ensures
        ({
            let now = paced(p, clock, answers).pacer.current;
            &&& now is Some
            &&& now == p.current || !is_overtaken(
                p.direction,
                now->Some_0.position,
                p.current->Some_0.position,
            )
        }),
{
}

/// The picture never runs ahead of the sound: a frame that a tick presents has
/// been reached by the clock.
pub proof fn the_picture_waits_for_the_sound(p: PacerView, clock: Frame, answers: Seq<Pulled>)
    ensures
        paced(p, Some(clock), answers).result matches Ok(Pace::Presented(at)) ==> !is_ahead(
            p.direction,
            at,
            clock,
        ),
        p.pending is None ==> (paced(p, Some(clock), answers).pacer.pending matches Some(f)
            ==> is_ahead(p.direction, f.position, clock)),
{
    match p.pending {
        Some(f) => {
            if !is_ahead(p.direction, f.position, clock) {
                lemma_drain(p.direction, clock, Some(f), answers, p.max_pulls as nat);
            }
        },
        None => {
            lemma_drain(p.direction, clock, None, answers, p.max_pulls as nat);
        },
    }
}

/// A tick asks a source for a bounded number of frames, and a stopped clock
/// asks for none.
pub proof fn pulling_is_bounded(p: PacerView, clock: Option<Frame>, answers: Seq<Pulled>)
    ensures
        paced(p, clock, answers).taken <= p.max_pulls,
        clock is None ==> paced(p, clock, answers).taken == 0,
        clock is None ==> paced(p, clock, answers).pacer.current == p.current,
{
    if let Some(c) = clock {
        match p.pending {
            Some(f) => {
                if !is_ahead(p.direction, f.position, c) {
                    lemma_drain(p.direction, c, Some(f), answers, p.max_pulls as nat);
                }
            },
            None => {
                lemma_drain(p.direction, c, None, answers, p.max_pulls as nat);
            },
        }
    }
}

/// Whether an answer leaves a tick asking for more: a frame that the clock has
/// passed.
pub open spec fn is_late(direction: Direction, clock: Frame, answer: Pulled) -> bool {
    answer matches Pulled::Frame(f) && !is_ahead(direction, f.position, clock) && f.position
        != clock
}

proof fn lemma_drain_stops(
    direction: Direction,
    clock: Frame,
    fresh: Option<VideoFrame>,
    answers: Seq<Pulled>,
    pulls: nat,
)
    requires
        answers.len() == drain(direction, clock, fresh, answers, pulls).taken,
    ensures
        forall|i: int|
            0 <= i < answers.len() - 1 ==> is_late(direction, clock, #[trigger] answers[i]),
        ({
            let d = drain(direction, clock, fresh, answers, pulls);
            d.failure is None ==> d.pending == if answers.len() > 0 {
                match answers.last() {
                    Pulled::Frame(f) => if is_ahead(direction, f.position, clock) {
                        Some(f)
                    } else {
                        None
                    },
                    _ => None,
                }
            } else {
                None
            }
        }),
    decreases pulls,
{
    if pulls > 0 {
        match answers[0] {
            Pulled::Frame(f) => {
                if is_late(direction, clock, answers[0]) {
                    let rest = answers.drop_first();
                    lemma_drain_stops(direction, clock, Some(f), rest, (pulls - 1) as nat);
                    assert forall|i: int| 0 <= i < answers.len() - 1 implies is_late(
                        direction,
                        clock,
                        #[trigger] answers[i],
                    ) by {
                        if i > 0 {
                            assert(rest[i - 1] == answers[i]);
                        }
                    }
                    if rest.len() > 0 {
                        assert(rest.last() == answers.last());
                    } else {
                        assert(answers.last() == answers[0]);
                    }
                }
            },
            _ => {},
        }
    }
}

/// A tick asks for no more than it needs. It asks for nothing while the sound
/// stands or a frame that was held back is ahead of it; otherwise for at most
/// as many frames as it may, and for none after an answer without a frame, or
/// with one at or ahead of the clock. A frame ahead of the clock is held back,
/// and is the first to be offered once the clock has reached it. A failure
/// leaves the picture and the counts of what was shown.
pub proof fn a_tick_asks_for_no_more_than_it_needs(
    p: PacerView,
    clock: Option<Frame>,
    answers: Seq<Pulled>,
)
    requires
        answers.len() == paced(p, clock, answers).taken,
    ensures
        clock is None ==> answers.len() == 0,
        p.pending is Some && clock is Some && is_ahead(
            p.direction,
            p.pending->Some_0.position,
            clock->Some_0,
        ) ==> answers.len() == 0 && paced(p, clock, answers).pacer.pending == p.pending,
        answers.len() <= p.max_pulls,
        clock is Some ==> forall|i: int|
            0 <= i < answers.len() - 1 ==> is_late(
                p.direction,
                clock->Some_0,
                #[trigger] answers[i],
            ),
        clock is Some && answers.len() > 0 ==> (answers.last() matches Pulled::Frame(f) ==> (
        is_ahead(p.direction, f.position, clock->Some_0) ==> paced(
            p,
            clock,
            answers,
        ).pacer.pending == Some(f))),
        clock is Some && p.pending is Some && !is_ahead(
            p.direction,
            p.pending->Some_0.position,
            clock->Some_0,
        ) ==> begun(p, clock) == continued(
            PacerView { pending: None, ..p },
            Pass { clock: clock->Some_0, fresh: p.pending, left: p.max_pulls },
        ),
        paced(p, clock, answers).result is Err ==> {
            let after = paced(p, clock, answers).pacer;
            &&& after.current == p.current
            &&& after.stats.presented == p.stats.presented
            &&& after.stats.repeated == p.stats.repeated
        },
{
    pulling_is_bounded(p, clock, answers);
    if let Some(c) = clock {
        match p.pending {
            Some(f) => {
                if !is_ahead(p.direction, f.position, c) {
                    lemma_drain_stops(p.direction, c, Some(f), answers, p.max_pulls as nat);
                }
            },
            None => {
                lemma_drain_stops(p.direction, c, None, answers, p.max_pulls as nat);
            },
        }
        if answers.len() > 0 && answers.last() is Frame {
            lemma_failure_is_last(
                p.direction,
                c,
                p.pending,
                answers,
                p.max_pulls as nat,
            );
        }
    }
}

proof fn lemma_failure_is_last(
    direction: Direction,
    clock: Frame,
    fresh: Option<VideoFrame>,
    answers: Seq<Pulled>,
    pulls: nat,
)
    requires
        answers.len() == drain(direction, clock, fresh, answers, pulls).taken,
        answers.len() > 0,
        answers.last() is Frame,
    ensures
        drain(direction, clock, fresh, answers, pulls).failure is None,
    decreases pulls,
{
    if pulls > 0 && is_late(direction, clock, answers[0]) {
        let rest = answers.drop_first();
        if rest.len() > 0 {
            assert(rest.last() == answers.last());
            lemma_failure_is_last(
                direction,
                clock,
                Some(answers[0]->Frame_0),
                rest,
                (pulls - 1) as nat,
            );
        } else {
            let d = drain(
                direction,
                clock,
                Some(answers[0]->Frame_0),
                rest,
                (pulls - 1) as nat,
            );
            assert(d.taken == 0);
        }
    }
}

/// Every tick that shows something counts once, as a frame presented or as a
/// frame held, until a counter is full.
pub proof fn every_tick_counts_once(p: PacerView, clock: Option<Frame>, answers: Seq<Pulled>)
    requires
        p.stats.presented < u64::MAX,
        p.stats.repeated < u64::MAX,
    ensures
        ({
            let t = paced(p, clock, answers);
            match t.result {
                Ok(Pace::Empty) => t.pacer.stats.presented + t.pacer.stats.repeated
                    == p.stats.presented + p.stats.repeated,
                Ok(_) => t.pacer.stats.presented + t.pacer.stats.repeated == p.stats.presented
                    + p.stats.repeated + 1,
                Err(_) => true,
            }
        }),
{
}

/// The frame that the clock asks for is shown: where it is the next that the
/// source has, and the picture has not passed it, it becomes the picture.
pub proof fn the_frame_at_the_clock_is_shown(
    p: PacerView,
    clock: Frame,
    f: VideoFrame,
    answers: Seq<Pulled>,
)
    requires
        p.pending is None,
        p.max_pulls >= 1,
        answers.len() >= 1,
        answers[0] == Pulled::Frame(f),
        f.position == clock,
        p.current is Some && !p.replaceable ==> !is_overtaken(
            p.direction,
            clock,
            p.current->Some_0.position,
        ),
    ensures
        ({
            let t = paced(p, Some(clock), answers);
            &&& t.result == Ok::<Pace, Seq<char>>(Pace::Presented(clock))
            &&& t.pacer.current == Some(f)
            &&& t.taken == 1
        }),
{
}

/// Of late frames the newest is shown: a frame that the clock has passed is
/// shown once the source has no other.
pub proof fn a_late_frame_is_shown_where_there_is_no_newer(
    p: PacerView,
    clock: Frame,
    f: VideoFrame,
    answers: Seq<Pulled>,
)
    requires
        p.pending is None,
        p.max_pulls >= 2,
        answers.len() >= 2,
        answers[0] == Pulled::Frame(f),
        answers[1] is Nothing,
        !is_ahead(p.direction, f.position, clock),
        f.position != clock,
        p.current is Some && !p.replaceable ==> !is_overtaken(
            p.direction,
            f.position,
            p.current->Some_0.position,
        ),
    ensures
        ({
            let t = paced(p, Some(clock), answers);
            &&& t.result == Ok::<Pace, Seq<char>>(Pace::Presented(f.position))
            &&& t.pacer.current == Some(f)
        }),
{
    reveal_with_fuel(drain, 3);
    assert(answers.drop_first()[0] == answers[1]);
}

/// How many of some answers are frames.
pub open spec fn frames_among(answers: Seq<Pulled>) -> int
    decreases answers.len(),
{
    if answers.len() == 0 {
        0
    } else {
        (if answers[0] is Frame {
            1int
        } else {
            0
        }) + frames_among(answers.drop_first())
    }
}

/// No frame is lost: what was waiting and what was pulled is offered to the
/// screen, held back, or counted as dropped.
pub proof fn every_frame_is_accounted_for(
    direction: Direction,
    clock: Frame,
    fresh: Option<VideoFrame>,
    answers: Seq<Pulled>,
    pulls: nat,
)
    requires
        answers.len() == drain(direction, clock, fresh, answers, pulls).taken,
    ensures
        ({
            let d = drain(direction, clock, fresh, answers, pulls);
            let one = |b: bool|
                if b {
                    1int
                } else {
                    0
                };
            one(fresh is Some) + frames_among(answers) == d.dropped + one(d.fresh is Some) + one(
                d.pending is Some,
            )
        }),
    decreases pulls,
{
    reveal_with_fuel(frames_among, 2);
    if pulls == 0 {
    } else {
        match answers[0] {
            Pulled::Frame(f) => {
                if !is_ahead(direction, f.position, clock) && f.position != clock {
                    every_frame_is_accounted_for(
                        direction,
                        clock,
                        Some(f),
                        answers.drop_first(),
                        (pulls - 1) as nat,
                    );
                } else {
                    assert(answers.drop_first().len() == 0);
                }
            },
            _ => {
                assert(answers.drop_first().len() == 0);
            },
        }
    }
}

/// Ahead and overtaken follow the clock: forwards a later frame is ahead and a
/// frame no later than the picture is overtaken, and backwards the other way
/// round.
pub proof fn pacing_follows_the_direction(a: Frame, b: Frame)
    ensures
        is_ahead(Direction::Forward, a, b) <==> a.0 > b.0,
        is_ahead(Direction::Backward, a, b) <==> a.0 < b.0,
        is_overtaken(Direction::Forward, a, b) <==> a.0 <= b.0,
        is_overtaken(Direction::Backward, a, b) <==> a.0 >= b.0,
{
}

/// What a tick says is what it did: where it says that a frame was shown, that
/// is the picture; where not, the picture is the one before; and where the
/// source failed, the picture stays and the reason is passed on.
pub proof fn a_tick_says_what_it_did(
    before: PacerView,
    clock: Option<Frame>,
    answers: Seq<Pulled>,
    after: PacerView,
    result: Result<Pace, PresentError>,
)
    requires
        tick_outcome(before, clock, answers, after, result),
    ensures
        result is Ok && result->Ok_0 is Presented ==> after.current is Some && result->Ok_0
            == Pace::Presented(after.current->Some_0.position),
        !(result is Ok && result->Ok_0 is Presented) ==> after.current == before.current,
        result is Err ==> result->Err_0 is Pull && answers.len() > 0 && (answers.last() is Failed),
        after.direction == before.direction,
        after.max_pulls == before.max_pulls,
{
    lemma_failed_last(before, clock, answers);
}

proof fn lemma_failed_last(before: PacerView, clock: Option<Frame>, answers: Seq<Pulled>)
    ensures
        paced(before, clock, answers).result is Err && answers.len() == paced(
            before,
            clock,
            answers,
        ).taken ==> answers.len() > 0 && answers.last() is Failed,
{
    if clock is Some {
        let fresh = before.pending;
        lemma_drain_fails_last(
            before.direction,
            clock->Some_0,
            fresh,
            answers,
            before.max_pulls as nat,
        );
    }
}

proof fn lemma_drain_fails_last(
    direction: Direction,
    clock: Frame,
    fresh: Option<VideoFrame>,
    answers: Seq<Pulled>,
    pulls: nat,
)
    ensures
        ({
            let d = drain(direction, clock, fresh, answers, pulls);
            d.failure is Some ==> d.taken > 0 && (d.taken == answers.len()
                ==> answers.last() is Failed)
        }),
    decreases pulls,
{
    if pulls > 0 && answers[0] is Frame {
        let f = answers[0]->Frame_0;
        let rest = answers.drop_first();
        lemma_drain_fails_last(direction, clock, Some(f), rest, (pulls - 1) as nat);
        let d = drain(direction, clock, Some(f), rest, (pulls - 1) as nat);
        if d.failure is Some && 1 + d.taken == answers.len() {
            assert(rest.last() == answers.last());
        }
    }
}

} // verus!
