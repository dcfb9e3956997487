//! Playing backwards.
//!
//! Decoding backwards costs a seek and a run of pictures. Instead of falling
//! behind the sound, a pass decodes the run that leads up to where the clock
//! is, and skips what the clock passed meanwhile. This decides what to decode
//! next and what to hand over; decoding itself happens outside.
use vstd::prelude::*;

use crate::frames::Picture;
use crate::frames::VideoFrame;
use crate::frames::pictures;
use crate::mlt::queue::BACKWARD_LIMIT;
use crate::mlt::queue::PreviewQueue;
use crate::mlt::queue::after_range;
use crate::mlt::queue::after_scrubbed;
use crate::mlt::queue::find_in;
use crate::mlt::queue::found_at;
use crate::mlt::queue::lemma_found;
use crate::mlt::queue::lemma_lowest;
use crate::mlt::queue::lowest_held;
use crate::mlt::queue::the_queue_is_bounded;

verus! {

/// The largest position that the clock reports.
pub const CLOCK_MAX: u64 = 0x7fff_ffff_ffff_ffff;

/// What is left, but no less than nothing.
pub open spec fn less(a: int, b: int) -> int {
    if a < b {
        0
    } else {
        a - b
    }
}

/// At least one.
pub open spec fn one_at_least(n: int) -> int {
    if n < 1 {
        1
    } else {
        n
    }
}

/// How many frames of clock went by for each frame decoded, at least one and
/// at most `reach`.
pub open spec fn measured_cost(travel: int, decoded: int, reach: int) -> int {
    let d = one_at_least(decoded);
    let m = (travel + d - 1) / d;
    if m < 1 {
        1
    } else if m > one_at_least(reach) {
        one_at_least(reach)
    } else {
        m
    }
}

/// The measure after another one: the two are averaged, so that one slow
/// decode moves the aim and does not decide it.
pub open spec fn blended(cost: int, travel: int, decoded: int, reach: int) -> int {
    one_at_least((cost + measured_cost(travel, decoded, reach)) / 2)
}

pub fn blend_cost(cost: u64, travel: u64, decoded: u64, reach: u64) -> (c: u64)
    ensures
        c == blended(cost as int, travel as int, decoded as int, reach as int),
{
    let d: u64 = if decoded < 1 {
        1
    } else {
        decoded
    };
    let top: u64 = if reach < 1 {
        1
    } else {
        reach
    };
    let wide: u128 = (travel as u128 + (d as u128 - 1)) / d as u128;
    proof {
        let t = travel as int;
        let e = d as int;
        assert(0 <= (t + e - 1) / e <= t) by (nonlinear_arith)
            requires
                t >= 0,
                e >= 1,
        ;
    }
    let measured: u64 = if wide < 1 {
        1
    } else if wide > top as u128 {
        top
    } else {
        wide as u64
    };
    let c: u64 = ((cost as u128 + measured as u128) / 2) as u64;
    if c < 1 {
        1
    } else {
        c
    }
}

/// A slow decode cannot move the aim further than `reach`, and a steady cost
/// holds.
pub proof fn a_cold_decode_cannot_run_away(cost: int, travel: int, decoded: int, reach: int)
    requires
        1 <= cost <= reach,
        0 <= travel,
        0 <= decoded,
    ensures
        1 <= blended(cost, travel, decoded, reach) <= reach,
        decoded <= 1 && 1 <= travel <= reach && travel == cost ==> blended(
            cost,
            travel,
            decoded,
            reach,
        ) == cost,
        travel == 0 && cost == 1 ==> blended(cost, travel, decoded, reach) == 1,
{
    if travel == 0 {
        let d = one_at_least(decoded);
        assert((0 + d - 1) / d == 0) by (nonlinear_arith)
            requires
                d >= 1,
        ;
    }
}

/// What a pass knows.
pub struct ScrubView {
    /// The pictures that were decoded, the lowest first.
    pub window: Seq<Picture>,
    /// The position that was last handed over.
    pub served: Option<u64>,
    /// How many pictures are decoded at a time.
    pub run: u64,
    /// Frames of clock for each frame decoded.
    pub cost: u64,
    /// The lowest picture that was handed over.
    pub published: Option<u64>,
    /// Whether the clock has started.
    pub running: bool,
}

/// What to do next.
#[derive(Clone, Copy, Debug, PartialEq, Eq, Structural)]
pub enum Plan {
    /// Nothing is due.
    Wait,
    /// Decode these positions.
    Decode { start: u64, end: u64 },
}

/// A pass of playing backwards.
#[derive(Debug)]
pub struct Scrub {
    window: Vec<VideoFrame>,
    served: Option<u64>,
    run: u64,
    cost: u64,
    published: Option<u64>,
    running: bool,
}

impl View for Scrub {
    type V = ScrubView;

    closed spec fn view(&self) -> ScrubView {
        ScrubView {
            window: pictures(self.window@),
            served: self.served,
            run: self.run,
            cost: self.cost,
            published: self.published,
            running: self.running,
        }
    }
}

/// How far ahead a decode may aim.
pub open spec fn reach_of(run: u64) -> int {
    if run * 4 > u64::MAX {
        u64::MAX as int
    } else {
        run * 4
    }
}

impl ScrubView {
    pub open spec fn wf(self) -> bool {
        &&& self.run >= 1
        &&& 1 <= self.cost <= reach_of(self.run)
    }

    /// Whether the picture at a position is there.
    pub open spec fn held(self, at: u64) -> bool {
        found_at(self.window, at as int) is Some
    }

    /// The highest picture that may still be handed over; every picture lies
    /// below the last one.
    pub open spec fn ceiling(self) -> int {
        match self.published {
            Some(p) => p - 1,
            None => CLOCK_MAX as int,
        }
    }

    /// The highest position to hand over, where the clock is at `at`: the
    /// clock moves in steps, and what it passed since the last one is handed
    /// over too.
    pub open spec fn top(self, at: u64) -> int {
        let from = match self.served {
            Some(s) => if s > at && s - at <= self.run {
                s - 1
            } else {
                at as int
            },
            None => at as int,
        };
        if from < self.ceiling() {
            from
        } else {
            self.ceiling()
        }
    }
}

/// A pass that has not started.
pub open spec fn new_pass(run: u64) -> ScrubView {
    ScrubView {
        window: Seq::empty(),
        served: None,
        run: if run < 1 {
            1
        } else {
            run
        },
        cost: 1,
        published: None,
        running: false,
    }
}

/// A position as the clock reports it.
pub open spec fn reported(clock: u64) -> u64 {
    if clock > CLOCK_MAX {
        CLOCK_MAX
    } else {
        clock
    }
}

/// Whether the clock has not started: until the first frame was played it
/// stands at the start, and nothing is decoded for that.
pub open spec fn is_idle(s: ScrubView, clock: Option<u64>) -> bool {
    clock is None || (clock == Some(0u64) && !s.running)
}

/// Handing over: what the pass knows then, and the queue.
pub open spec fn handed_over(s: ScrubView, at: u64, queue: Seq<Picture>) -> (ScrubView, Seq<Picture>) {
    if s.served != Some(at) && s.held(at) {
        if at <= s.ceiling() {
            (
                ScrubView {
                    served: Some(at),
                    published: match lowest_held(s.window, at as int, s.top(at)) {
                        Some(p) => Some(p as u64),
                        None => s.published,
                    },
                    ..s
                },
                after_range(queue, s.window, at as int, s.top(at)),
            )
        } else {
            (ScrubView { served: Some(at), ..s }, queue)
        }
    } else {
        (s, queue)
    }
}

/// What is decoded next. Where the cost shows that a run cannot keep up, one
/// picture at a time is decoded, below the clock by that cost and below what
/// was handed over. Otherwise the run that ends at the clock is decoded where
/// it is missing, and the run below what is there where the clock is about to
/// reach it.
pub open spec fn planned(s: ScrubView, at: u64) -> Plan {
    if s.cost > 1 {
        let top = match s.published {
            Some(p) => less(p as int, 1),
            None => u64::MAX as int,
        };
        let below = less(at as int, s.cost as int);
        let aim = if below < top {
            below
        } else {
            top
        };
        if s.published == Some(0u64) {
            Plan::Wait
        } else {
            Plan::Decode { start: aim as u64, end: aim as u64 }
        }
    } else if !s.held(at) {
        Plan::Decode { start: less(at as int, s.run - 1) as u64, end: at }
    } else {
        let lo = s.window[0].position.0;
        if lo == 0 || less(at as int, lo as int) >= s.run {
            Plan::Wait
        } else {
            Plan::Decode {
                start: less(lo as int, s.run as int) as u64,
                end: less(lo as int, 1) as u64,
            }
        }
    }
}

/// What a reading of the clock does.
pub open spec fn ticked(s: ScrubView, clock: Option<u64>, queue: Seq<Picture>) -> (
    ScrubView,
    Seq<Picture>,
    Plan,
) {
    if is_idle(s, clock) {
        (s, queue, Plan::Wait)
    } else {
        let at = reported(clock->Some_0);
        let started = ScrubView { running: true, ..s };
        let (next, q) = handed_over(started, at, queue);
        (next, q, planned(next, at))
    }
}

/// The window without the pictures that the pass has gone by, as far as it is
/// longer than `keep`.
pub open spec fn trimmed(window: Seq<Picture>, keep: int, at: u64) -> Seq<Picture>
    decreases window.len(),
{
    if window.len() > keep && window.len() > 0 && window.last().position.0 > at {
        trimmed(window.drop_last(), keep, at)
    } else {
        window
    }
}

/// Whether decoded pictures continue the window downwards.
pub open spec fn continues(s: ScrubView, end: u64) -> bool {
    s.window.len() > 0 && end + 1 == s.window[0].position.0
}

/// What the pass knows once `start..=end` was decoded: `at` is the clock that
/// it was planned for, `travel` how far the clock moved meanwhile, and
/// `latest` where it is now.
pub open spec fn after_decode(
    s: ScrubView,
    at: u64,
    start: u64,
    end: u64,
    fresh: Seq<Picture>,
    travel: u64,
    latest: Option<u64>,
    queue: Seq<Picture>,
) -> (ScrubView, Seq<Picture>) {
    let decoded = less(end as int, start as int) + 1;
    let cost = blended(
        s.cost as int,
        travel as int,
        if decoded > u64::MAX {
            u64::MAX as int
        } else {
            decoded
        },
        reach_of(s.run),
    ) as u64;
    let window = if continues(s, end) {
        fresh + s.window
    } else {
        fresh
    };
    let kept = trimmed(window, reach_of(s.run), reported(at));
    if s.cost > 1 {
        (
            ScrubView {
                window: kept,
                cost,
                served: match latest {
                    Some(c) => Some(reported(c)),
                    None => None,
                },
                published: match lowest_held(window, end as int, end as int) {
                    Some(p) => Some(p as u64),
                    None => s.published,
                },
                ..s
            },
            after_range(queue, window, end as int, end as int),
        )
    } else {
        (ScrubView { window: kept, cost, ..s }, queue)
    }
}

/// Nothing is decoded or handed over before the clock starts.
pub proof fn a_pass_waits_for_the_clock(s: ScrubView, queue: Seq<Picture>)
    requires
        !s.running,
    ensures
        ticked(s, None, queue) == (s, queue, Plan::Wait),
        ticked(s, Some(0u64), queue) == (s, queue, Plan::Wait),
{
}

/// A backwards pass only ever goes down: whatever the clock says, a picture is
/// handed over only below the last one.
pub proof fn a_pass_only_goes_down(s: ScrubView, clock: Option<u64>, queue: Seq<Picture>)
    ensures
        ({
            let next = ticked(s, clock, queue).0;
            next.published == s.published || (next.published is Some && (s.published matches Some(p)
                ==> next.published->Some_0 < p))
        }),
{
    if !is_idle(s, clock) {
        let at = reported(clock->Some_0);
        let started = ScrubView { running: true, ..s };
        lemma_lowest(started.window, at as int, started.top(at));
    }
}

/// While it chases the clock, a pass decodes only below what it handed over.
pub proof fn a_chase_aims_below(s: ScrubView, at: u64)
    requires
        s.cost > 1,
    ensures
        planned(s, at) matches Plan::Decode { start, end } ==> start == end && (
        s.published matches Some(p) ==> end < p),
{
}

/// The pictures `low..=high` of a window, the highest first.
pub open spec fn range_of(window: Seq<Picture>, low: int, high: int) -> Seq<Picture>
    decreases high - low + 1,
{
    if high < low {
        Seq::empty()
    } else {
        (match found_at(window, high) {
            Some(i) => seq![window[i]],
            None => Seq::empty(),
        }) + range_of(window, low, high - 1)
    }
}

/// A queue that was handed pictures one after another.
pub open spec fn after_all(q: Seq<Picture>, handed: Seq<Picture>) -> Seq<Picture>
    decreases handed.len(),
{
    if handed.len() == 0 {
        q
    } else {
        after_all(after_scrubbed(q, handed[0]), handed.drop_first())
    }
}

proof fn lemma_range_is_handed_over(q: Seq<Picture>, window: Seq<Picture>, low: int, high: int)
    ensures
        after_range(q, window, low, high) == after_all(q, range_of(window, low, high)),
    decreases high - low + 1,
{
    if high >= low {
        let rest = range_of(window, low, high - 1);
        match found_at(window, high) {
            Some(i) => {
                let all = seq![window[i]] + rest;
                assert(all.drop_first() =~= rest);
                lemma_range_is_handed_over(
                    after_scrubbed(q, window[i]),
                    window,
                    low,
                    high - 1,
                );
            },
            None => {
                assert(Seq::<Picture>::empty() + rest =~= rest);
                lemma_range_is_handed_over(q, window, low, high - 1);
            },
        }
    }
}

/// Whether positions only ever fall.
pub open spec fn goes_down(handed: Seq<Picture>) -> bool {
    forall|i: int, j: int|
        0 <= i < j < handed.len() ==> (#[trigger] handed[j]).position.0 < (
        #[trigger] handed[i]).position.0
}

proof fn lemma_range(window: Seq<Picture>, low: int, high: int)
    ensures
        goes_down(range_of(window, low, high)),
        forall|i: int|
            0 <= i < range_of(window, low, high).len() ==> low <= (
            #[trigger] range_of(window, low, high)[i]).position.0 <= high,
        match lowest_held(window, low, high) {
            Some(p) => range_of(window, low, high).len() > 0 && range_of(
                window,
                low,
                high,
            ).last().position.0 == p,
            None => range_of(window, low, high).len() == 0,
        },
    decreases high - low + 1,
{
    if high >= low {
        lemma_range(window, low, high - 1);
        lemma_found(window, high);
        let rest = range_of(window, low, high - 1);
        let all = range_of(window, low, high);
        if found_at(window, high) is Some {
            assert forall|i: int, j: int| 0 <= i < j < all.len() implies (
            #[trigger] all[j]).position.0 < (#[trigger] all[i]).position.0 by {
                assert(all[j] == rest[j - 1]);
                if i > 0 {
                    assert(all[i] == rest[i - 1]);
                }
            }
            assert forall|i: int| 0 <= i < all.len() implies low <= (
            #[trigger] all[i]).position.0 <= high by {
                if i > 0 {
                    assert(all[i] == rest[i - 1]);
                }
            }
            if rest.len() > 0 {
                assert(all.last() == rest.last());
            }
        } else {
            assert(all =~= rest);
        }
        lemma_lowest_grows(window, low, high);
    }
}

/// One more position above matters only where there was nothing below.
proof fn lemma_lowest_grows(window: Seq<Picture>, low: int, high: int)
    requires
        low <= high,
    ensures
        lowest_held(window, low, high) == match lowest_held(window, low, high - 1) {
            Some(p) => Some(p),
            None => if found_at(window, high) is Some {
                Some(high)
            } else {
                None
            },
        },
    decreases high - low,
{
    if low < high {
        lemma_lowest_grows(window, low + 1, high);
    } else {
        reveal_with_fuel(lowest_held, 3);
    }
}

/// Something that happens to a pass: the clock is read, the pictures that were
/// planned arrive, or the next picture is taken off the queue. A decode that
/// fails is one whose pictures never arrive.
pub enum Event {
    Clock(Option<u64>),
    Decoded { fresh: Seq<Picture>, travel: u64, latest: Option<u64> },
    Taken,
}

/// A pass, its queue, and everything that it has handed over.
pub struct Course {
    pub pass: ScrubView,
    pub queue: Seq<Picture>,
    pub handed: Seq<Picture>,
    /// What is being decoded: for which clock, and which positions.
    pub plan: Option<(u64, u64, u64)>,
}

/// What a reading of the clock hands over.
pub open spec fn handed_by_clock(s: ScrubView, clock: Option<u64>) -> Seq<Picture> {
    if is_idle(s, clock) {
        Seq::empty()
    } else {
        let at = reported(clock->Some_0);
        if s.served != Some(at) && s.held(at) && at <= s.ceiling() {
            range_of(s.window, at as int, s.top(at))
        } else {
            Seq::empty()
        }
    }
}

/// What the arrival of pictures hands over.
pub open spec fn handed_by_decode(s: ScrubView, end: u64, fresh: Seq<Picture>) -> Seq<Picture> {
    if s.cost > 1 {
        range_of(
            if continues(s, end) {
                fresh + s.window
            } else {
                fresh
            },
            end as int,
            end as int,
        )
    } else {
        Seq::empty()
    }
}

/// A course after something happened.
pub open spec fn after_event(c: Course, e: Event) -> Course {
    match e {
        Event::Clock(clock) => {
            let (pass, queue, plan) = ticked(c.pass, clock, c.queue);
            Course {
                pass,
                queue,
                handed: c.handed + handed_by_clock(c.pass, clock),
                plan: match plan {
                    Plan::Wait => None,
                    Plan::Decode { start, end } => Some((clock->Some_0, start, end)),
                },
            }
        },
        Event::Decoded { fresh, travel, latest } => match c.plan {
            None => c,
            Some((at, start, end)) => {
                let (pass, queue) = after_decode(
                    c.pass,
                    at,
                    start,
                    end,
                    fresh,
                    travel,
                    latest,
                    c.queue,
                );
                Course {
                    pass,
                    queue,
                    handed: c.handed + handed_by_decode(c.pass, end, fresh),
                    plan: None,
                }
            },
        },
        Event::Taken => Course {
            queue: if c.queue.len() > 0 {
                c.queue.skip(1)
            } else {
                c.queue
            },
            ..c
        },
    }
}

/// The course of a pass over its first `n` events.
pub open spec fn course(run: u64, events: Seq<Event>, n: nat) -> Course
    decreases n,
{
    if n == 0 {
        Course { pass: new_pass(run), queue: Seq::empty(), handed: Seq::empty(), plan: None }
    } else {
        after_event(course(run, events, (n - 1) as nat), events[n - 1])
    }
}

/// What is counted as handed over is what is put on the queue: a reading of
/// the clock and the arrival of pictures hand them to it one after another,
/// and nothing else adds to it.
pub proof fn what_is_handed_over_is_queued(c: Course, e: Event)
    ensures
        ({
            let after = after_event(c, e);
            &&& c.handed.len() <= after.handed.len()
            &&& after.handed.take(c.handed.len() as int) == c.handed
            &&& !(e is Taken) ==> after.queue == after_all(
                c.queue,
                after.handed.skip(c.handed.len() as int),
            )
            &&& e is Taken ==> after.handed == c.handed && after.queue.len() <= c.queue.len()
        }),
{
    let after = after_event(c, e);
    assert(after.handed.take(c.handed.len() as int) =~= c.handed);
    match e {
        Event::Clock(clock) => {
            let new = handed_by_clock(c.pass, clock);
            assert(after.handed.skip(c.handed.len() as int) =~= new);
            if !is_idle(c.pass, clock) {
                let at = reported(clock->Some_0);
                let started = ScrubView { running: true, ..c.pass };
                assert(started.top(at) == c.pass.top(at));
                lemma_range_is_handed_over(c.queue, c.pass.window, at as int, c.pass.top(at));
            }
        },
        Event::Decoded { fresh, travel, latest } => {
            if let Some((at, start, end)) = c.plan {
                let new = handed_by_decode(c.pass, end, fresh);
                assert(after.handed.skip(c.handed.len() as int) =~= new);
                let window = if continues(c.pass, end) {
                    fresh + c.pass.window
                } else {
                    fresh
                };
                lemma_range_is_handed_over(c.queue, window, end as int, end as int);
            } else {
                assert(after.handed.skip(c.handed.len() as int) =~= Seq::<Picture>::empty());
            }
        },
        Event::Taken => {},
    }
}

/// What holds all along the course of a pass.
spec fn on_course(c: Course) -> bool {
    &&& goes_down(c.handed)
    &&& c.queue.len() <= BACKWARD_LIMIT
    &&& c.handed.len() > 0 ==> c.pass.published == Some(c.handed.last().position.0)
    &&& c.handed.len() == 0 ==> c.pass.published is None
    &&& !c.pass.running ==> c.handed.len() == 0 && c.plan is None
    &&& c.plan is Some && c.pass.cost > 1 && c.pass.published is Some ==> c.plan->Some_0.2
        < c.pass.published->Some_0
}

proof fn lemma_on_course(c: Course, e: Event)
    requires
        on_course(c),
    ensures
        on_course(after_event(c, e)),
        after_event(c, e).pass.running == (c.pass.running || (e matches Event::Clock(Some(t))
            && t > 0)),
{
    let after = after_event(c, e);
    match e {
        Event::Clock(clock) => {
            if !is_idle(c.pass, clock) {
                let at = reported(clock->Some_0);
                let started = ScrubView { running: true, ..c.pass };
                assert(started.top(at) == c.pass.top(at));
                let (next, q) = handed_over(started, at, c.queue);
                let new = handed_by_clock(c.pass, clock);
                lemma_range(c.pass.window, at as int, c.pass.top(at));
                the_queue_is_bounded(c.queue, c.pass.window, at as int, c.pass.top(at));
                lemma_goes_on_down(c.handed, new, c.pass.ceiling());
                if next.cost > 1 {
                    a_chase_aims_below(next, at);
                }
            } else {
                assert(after.handed =~= c.handed);
            }
        },
        Event::Decoded { fresh, travel, latest } => {
            if let Some((at, start, end)) = c.plan {
                let window = if continues(c.pass, end) {
                    fresh + c.pass.window
                } else {
                    fresh
                };
                let new = handed_by_decode(c.pass, end, fresh);
                lemma_range(window, end as int, end as int);
                the_queue_is_bounded(c.queue, window, end as int, end as int);
                lemma_goes_on_down(c.handed, new, end as int);
            }
        },
        Event::Taken => {},
    }
}

proof fn lemma_goes_on_down(handed: Seq<Picture>, new: Seq<Picture>, ceiling: int)
    requires
        goes_down(handed),
        goes_down(new),
        handed.len() > 0 && new.len() > 0 ==> ceiling < handed.last().position.0,
        forall|i: int| 0 <= i < new.len() ==> (#[trigger] new[i]).position.0 <= ceiling,
    ensures
        goes_down(handed + new),
        new.len() > 0 ==> (handed + new).last() == new.last(),
        new.len() == 0 ==> handed + new == handed,
{
    let all = handed + new;
    assert forall|i: int, j: int| 0 <= i < j < all.len() implies (#[trigger] all[j]).position.0 < (
    #[trigger] all[i]).position.0 by {
        if j < handed.len() {
            assert(all[i] == handed[i] && all[j] == handed[j]);
        } else if i >= handed.len() {
            assert(all[i] == new[i - handed.len()] && all[j] == new[j - handed.len()]);
        } else {
            assert(all[i] == handed[i] && all[j] == new[j - handed.len()]);
            if i < handed.len() - 1 {
                assert(handed[handed.len() - 1].position.0 < handed[i].position.0);
            }
        }
    }
    if new.len() == 0 {
        assert(all =~= handed);
    }
}

/// Over the whole course of a backwards pass, whatever the clock says and
/// whatever is decoded, every picture that is handed over lies below the one
/// before it, the queue holds no more than its limit, and nothing is handed
/// over before the clock has been above zero.
pub proof fn a_pass_hands_over_only_downwards(run: u64, events: Seq<Event>, n: nat)
    requires
        n <= events.len(),
    ensures
        goes_down(course(run, events, n).handed),
        course(run, events, n).queue.len() <= BACKWARD_LIMIT,
        (forall|i: int| 0 <= i < n ==> !(#[trigger] events[i] matches Event::Clock(Some(t)) && t > 0))
            ==> course(run, events, n).handed.len() == 0,
{
    lemma_course(run, events, n);
}

proof fn lemma_course(run: u64, events: Seq<Event>, n: nat)
    requires
        n <= events.len(),
    ensures
        on_course(course(run, events, n)),
        (forall|i: int| 0 <= i < n ==> !(#[trigger] events[i] matches Event::Clock(Some(t)) && t > 0))
            ==> !course(run, events, n).pass.running,
    decreases n,
{
    if n > 0 {
        let k = (n - 1) as nat;
        lemma_course(run, events, k);
        lemma_on_course(course(run, events, k), events[n - 1]);
    }
}

impl Scrub {
    /// A pass that decodes `run` pictures at a time.
    pub fn new(run: u64) -> (s: Self)
        ensures
            s@ == new_pass(run),
            s@.wf(),
    {
        let s = Scrub {
            window: Vec::new(),
            served: None,
            run: if run < 1 {
                1
            } else {
                run
            },
            cost: 1,
            published: None,
            running: false,
        };
        assert(s@.window =~= Seq::<Picture>::empty());
        s
    }

    fn reach(&self) -> (r: u64)
        ensures
            r == reach_of(self@.run),
    {
        if self.run > u64::MAX / 4 {
            u64::MAX
        } else {
            self.run * 4
        }
    }

    /// Reads the clock: hands over what is due, and says what to decode.
    pub fn tick(&mut self, clock: Option<u64>, queue: &mut PreviewQueue) -> (p: Plan)
        requires
            old(self)@.wf(),
        ensures
            (final(self)@, final(queue)@, p) == ticked(old(self)@, clock, old(queue)@),
            final(self)@.wf(),
    {
        let at: u64 = match clock {
            None => {
                return Plan::Wait;
            },
            Some(c) => {
                if c == 0 && !self.running {
                    return Plan::Wait;
                }
                if c > CLOCK_MAX {
                    CLOCK_MAX
                } else {
                    c
                }
            },
        };
        self.running = true;
        let ghost started = self@;
        let ghost before = queue@;
        let held = find_in(&self.window, at).is_some();
        let stale = match self.served {
            Some(s) => s != at,
            None => true,
        };
        if stale && held {
            let from: u64 = match self.served {
                Some(s) => if s > at && s - at <= self.run {
                    s - 1
                } else {
                    at
                },
                None => at,
            };
            self.served = Some(at);
            let room = match self.published {
                Some(p) => at < p,
                None => true,
            };
            if room {
                let top: u64 = match self.published {
                    Some(p) => if from < p - 1 {
                        from
                    } else {
                        p - 1
                    },
                    None => if from < CLOCK_MAX {
                        from
                    } else {
                        CLOCK_MAX
                    },
                };
                assert(top == started.top(at));
                let lowest = queue.push_range(&self.window, at, top);
                if lowest.is_some() {
                    self.published = lowest;
                }
            }
        }
        assert((self@, queue@) == handed_over(started, at, before));
        self.plan(at, held)
    }

    fn plan(&self, at: u64, held: bool) -> (p: Plan)
        requires
            self@.wf(),
            held == self@.held(at),
        ensures
            p == planned(self@, at),
    {
        if self.cost > 1 {
            let below: u64 = at.saturating_sub(self.cost);
            let aim: u64 = match self.published {
                Some(p) => {
                    if p == 0 {
                        return Plan::Wait;
                    }
                    if below < p - 1 {
                        below
                    } else {
                        p - 1
                    }
                },
                None => below,
            };
            Plan::Decode { start: aim, end: aim }
        } else if !held {
            Plan::Decode { start: at.saturating_sub(self.run - 1), end: at }
        } else {
            proof {
                lemma_found(self@.window, at as int);
            }
            let lo: u64 = self.window[0].position.0;
            assert(self@.window[0] == self.window@[0]@);
            if lo == 0 || at.saturating_sub(lo) >= self.run {
                Plan::Wait
            } else {
                Plan::Decode { start: lo.saturating_sub(self.run), end: lo - 1 }
            }
        }
    }

    /// Takes what was decoded for a plan.
    pub fn decoded(
        &mut self,
        at: u64,
        start: u64,
        end: u64,
        fresh: Vec<VideoFrame>,
        travel: u64,
        latest: Option<u64>,
        queue: &mut PreviewQueue,
    )
        requires
            old(self)@.wf(),
        ensures
            (final(self)@, final(queue)@) == after_decode(
                old(self)@,
                at,
                start,
                end,
                pictures(fresh@),
                travel,
                latest,
                old(queue)@,
            ),
            final(self)@.wf(),
    {
        let ghost before = self@;
        let chasing = self.cost > 1;
        let reach = self.reach();
        let count: u64 = end.saturating_sub(start).saturating_add(1);
        proof {
            a_cold_decode_cannot_run_away(
                self.cost as int,
                travel as int,
                count as int,
                reach as int,
            );
        }
        let adjacent = self.window.len() > 0 && end < u64::MAX && end + 1
            == self.window[0].position.0;
        if self.window.len() > 0 {
            assert(before.window[0] == self.window@[0]@);
        }
        assert(adjacent == continues(before, end));
        self.cost = blend_cost(self.cost, travel, count, reach);
        let mut window = fresh;
        let ghost new = pictures(window@);
        if adjacent {
            let mut rest: Vec<VideoFrame> = Vec::new();
            std::mem::swap(&mut rest, &mut self.window);
            window.append(&mut rest);
            assert(pictures(window@) =~= new + before.window);
        }
        let ghost whole = pictures(window@);
        if chasing {
            self.served = match latest {
                Some(c) => if c > CLOCK_MAX {
                    Some(CLOCK_MAX)
                } else {
                    Some(c)
                },
                None => None,
            };
            let lowest = queue.push_range(&window, end, end);
            if lowest.is_some() {
                self.published = lowest;
            }
        }
        let here: u64 = if at > CLOCK_MAX {
            CLOCK_MAX
        } else {
            at
        };
        let mut n: usize = window.len();
        while n > 0 && n as u64 > reach && window[n - 1].position.0 > here
            invariant
                n == window@.len(),
                trimmed(pictures(window@), reach as int, here) == trimmed(
                    whole,
                    reach as int,
                    here,
                ),
            decreases n,
        {
            let ghost all = pictures(window@);
            assert(all.last() == window@[n - 1]@);
            window.truncate(n - 1);
            assert(pictures(window@) =~= all.drop_last());
            n = n - 1;
        }
        assert(trimmed(pictures(window@), reach as int, here) == pictures(window@)) by {
            if n > 0 {
                assert(pictures(window@).last() == window@[n - 1]@);
            }
        }
        self.window = window;
    }
}

/// What a decode cost is the clock's travel for each frame, rounded up: as many
/// frames at that cost cover the travel, and at one less they would not. It is
/// at least one, and at most the reach.
pub proof fn the_cost_is_the_travel_of_a_frame(travel: int, decoded: int, reach: int)
    requires
        0 <= travel,
        1 <= decoded,
        1 <= reach,
    ensures
        ({
            let c = measured_cost(travel, decoded, reach);
            &&& 1 <= c <= reach
            &&& c < reach ==> travel <= c * decoded
            &&& c > 1 ==> (c - 1) * decoded < travel
        }),
{
    let m = (travel + decoded - 1) / decoded;
    vstd::arithmetic::div_mod::lemma_fundamental_div_mod(travel + decoded - 1, decoded);
    vstd::arithmetic::div_mod::lemma_mod_bound(travel + decoded - 1, decoded);
    let c = measured_cost(travel, decoded, reach);
    assert(travel <= m * decoded && (m - 1) * decoded < travel) by (nonlinear_arith)
        requires
            travel + decoded - 1 == decoded * m + (travel + decoded - 1) % decoded,
            0 <= (travel + decoded - 1) % decoded < decoded,
    ;
    if c < m {
        assert((c - 1) * decoded <= (m - 1) * decoded) by (nonlinear_arith)
            requires
                c <= m,
                decoded >= 1,
        ;
    }
    if c > m {
        assert(m * decoded <= c * decoded) by (nonlinear_arith)
            requires
                m <= c,
                decoded >= 1,
        ;
    }
}

/// The cost after a decode lies halfway between what it was and what was
/// measured.
pub proof fn the_cost_moves_halfway(cost: int, travel: int, decoded: int, reach: int)
    requires
        1 <= cost,
        0 <= travel,
        0 <= decoded,
    ensures
        ({
            let m = measured_cost(travel, decoded, reach);
            let c = blended(cost, travel, decoded, reach);
            0 <= (cost + m) - 2 * c <= 1
        }),
{
}

/// While a run keeps up, what is decoded is a run: the one that ends at the
/// clock where that picture is missing, and the one right below what is there
/// where the clock is less than a run above it. Nothing is decoded where there
/// is nothing below, or the clock is far.
pub proof fn a_pass_decodes_runs_that_meet(s: ScrubView, at: u64)
    requires
        s.wf(),
        s.cost == 1,
    ensures
        !s.held(at) ==> planned(s, at) == (Plan::Decode {
            start: if at >= s.run - 1 {
                (at - (s.run - 1)) as u64
            } else {
                0
            },
            end: at,
        }),
        s.held(at) && s.window.len() > 0 ==> {
            let lowest = s.window[0].position.0;
            &&& lowest > 0 && at < lowest + s.run ==> planned(s, at) == (Plan::Decode {
                start: if lowest >= s.run {
                    (lowest - s.run) as u64
                } else {
                    0
                },
                end: (lowest - 1) as u64,
            })
            &&& lowest == 0 || at >= lowest + s.run ==> planned(s, at) == Plan::Wait
        },
{
}

/// A pass that cannot keep up decodes the one picture that the clock will be at
/// by then, and never one above what it handed over.
pub proof fn a_chase_aims_where_the_clock_will_be(s: ScrubView, at: u64)
    requires
        s.cost > 1,
    ensures
        s.published is None && at >= s.cost ==> planned(s, at) == (Plan::Decode {
            start: (at - s.cost) as u64,
            end: (at - s.cost) as u64,
        }),
        s.published is Some && s.published->Some_0 > 0 && at >= s.cost ==> {
            let below = s.published->Some_0 - 1;
            let aim = if at - s.cost < below {
                at - s.cost
            } else {
                below
            };
            planned(s, at) == (Plan::Decode { start: aim as u64, end: aim as u64 })
        },
        s.published == Some(0u64) ==> planned(s, at) == Plan::Wait,
{
}

/// What a reading of the clock hands over first is the highest picture that is
/// due, and the picture at the clock is among it: the clock's own picture is
/// handed over whenever it is there, new, and below the last one.
pub proof fn the_picture_at_the_clock_is_handed_over(s: ScrubView, at: u64)
    requires
        0 < at <= CLOCK_MAX,
        s.held(at),
        s.served != Some(at),
        at <= s.ceiling(),
    ensures
        exists|i: int|
            0 <= i < handed_by_clock(s, Some(at)).len() && (#[trigger] handed_by_clock(
                s,
                Some(at),
            )[i]).position.0 == at,
        forall|i: int|
            0 <= i < handed_by_clock(s, Some(at)).len() ==> at <= (#[trigger] handed_by_clock(
                s,
                Some(at),
            )[i]).position.0 <= s.ceiling(),
{
    let v = handed_by_clock(s, Some(at));
    assert(v == range_of(s.window, at as int, s.top(at)));
    lemma_range(s.window, at as int, s.top(at));
    lemma_lowest(s.window, at as int, s.top(at));
    assert(lowest_held(s.window, at as int, s.top(at)) == Some(at as int));
    assert(v[v.len() - 1].position.0 == at);
}

/// What is kept of a window is its lower part: nothing is dropped while it is
/// short, and only pictures that the clock has gone by.
pub proof fn only_what_was_gone_by_is_dropped(window: Seq<Picture>, keep: int, at: u64) -> (n: int)
    requires
        keep >= 0,
    ensures
        0 <= n <= window.len(),
        trimmed(window, keep, at) == window.take(n),
        window.len() <= keep ==> n == window.len(),
        n < window.len() ==> n >= keep,
        forall|i: int| n <= i < window.len() ==> (#[trigger] window[i]).position.0 > at,
        n > keep ==> window[n - 1].position.0 <= at,
    decreases window.len(),
{
    if window.len() > keep && window.len() > 0 && window.last().position.0 > at {
        let n = only_what_was_gone_by_is_dropped(window.drop_last(), keep, at);
        assert(window.drop_last().take(n) =~= window.take(n));
        assert forall|i: int| n <= i < window.len() implies (#[trigger] window[i]).position.0
            > at by {
            if i < window.len() - 1 {
                assert(window.drop_last()[i].position.0 > at);
            }
        }
        n
    } else {
        assert(window.take(window.len() as int) =~= window);
        window.len() as int
    }
}

} // verus!
