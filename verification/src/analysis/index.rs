//! The store behind searches for a condition.
//!
//! A track whose analysis has not finished answers that it is not known, never
//! that there is no match.
use vstd::prelude::*;
use std::collections::BTreeMap;

use crate::analysis::tree::MaxTree;
use crate::analysis::tree::first_in;
use crate::analysis::tree::last_in;
use crate::analysis::tree::lemma_first_in;
use crate::analysis::tree::lemma_last_in;
use crate::model::Fps;
use crate::model::Frame;
use crate::model::TrackId;
use crate::motion::predicate::Answer;
use crate::motion::predicate::Predicate;
use crate::motion::predicate::PredicateIndex;
use crate::motion::target::Direction;

verus! {

/// A stretch of silence, in milliseconds.
#[derive(Clone, Copy, Debug, PartialEq, Eq, Structural)]
pub struct SilenceSpan {
    pub start_ms: u64,
    pub end_ms: u64,
}

impl SilenceSpan {
    /// How long the silence lasts.
    pub open spec fn length(self) -> int {
        if self.end_ms < self.start_ms {
            0
        } else {
            self.end_ms - self.start_ms
        }
    }

    pub fn duration_ms(&self) -> (d: u64)
        ensures
            d == self.length(),
    {
        if self.end_ms < self.start_ms {
            0
        } else {
            self.end_ms - self.start_ms
        }
    }
}

/// Measurements of the media of a track. Times are milliseconds, levels
/// thousandths of a decibel.
#[derive(Debug)]
pub struct Analysis {
    /// How far apart the levels were measured.
    pub hop_ms: u32,
    /// The peak level of each hop.
    pub peaks: Vec<i64>,
    /// The silent stretches, in order.
    pub silence: Vec<SilenceSpan>,
    /// The scene changes, in order.
    pub scene_changes: Vec<u64>,
}

impl Analysis {
    /// The lists are in order.
    pub open spec fn wf(&self) -> bool {
        &&& forall|i: int, j: int|
            0 <= i <= j < self.silence@.len() ==> (#[trigger] self.silence@[i]).start_ms <= (
            #[trigger] self.silence@[j]).start_ms
        &&& in_order(self.scene_changes@)
    }
}

/// Whether times never decrease.
pub open spec fn in_order(times: Seq<u64>) -> bool {
    forall|i: int, j: int| 0 <= i <= j < times.len() ==> times[i] <= times[j]
}

/// A number, held at the largest that fits.
pub open spec fn capped(n: int) -> u64 {
    if n > u64::MAX {
        u64::MAX
    } else {
        n as u64
    }
}

/// The millisecond at which a frame begins, rounded down.
pub open spec fn ms_at(frame: u64, fps: Fps) -> u64 {
    capped((frame * 1000 * fps.den) / fps.num as int)
}

/// The frame that is showing at a millisecond.
pub open spec fn frame_at(ms: u64, fps: Fps) -> u64 {
    capped((ms * fps.num) / (1000 * fps.den))
}

fn cap(n: u128) -> (c: u64)
    ensures
        c == capped(n as int),
{
    if n > u64::MAX as u128 {
        u64::MAX
    } else {
        n as u64
    }
}

pub fn ms_at_frame(frame: Frame, fps: Fps) -> (ms: u64)
    requires
        fps.num > 0,
    ensures
        ms == ms_at(frame.0, fps),
{
    let f: u64 = frame.0;
    let den: u32 = fps.den;
    assert(f * 1000 * den <= u64::MAX * 1000 * u32::MAX) by (nonlinear_arith)
        requires
            f <= u64::MAX,
            den <= u32::MAX,
    ;
    cap((f as u128 * 1000 * den as u128) / (fps.num as u128))
}

pub fn frame_at_ms(ms: u64, fps: Fps) -> (f: Frame)
    requires
        fps.den > 0,
    ensures
        f.0 == frame_at(ms, fps),
{
    let num: u32 = fps.num;
    assert(ms * num <= u64::MAX * u32::MAX) by (nonlinear_arith)
        requires
            ms <= u64::MAX,
            num <= u32::MAX,
    ;
    Frame(cap((ms as u128 * num as u128) / (1000 * fps.den as u128)))
}

/// What is known about the media of one track.
pub enum TrackAnalysis {
    /// Not finished, or out of date.
    Pending,
    /// The measurement failed, and nothing is known.
    Failed(String),
    Ready(Box<Indexed>),
}

/// The measurements of one track, ready to be searched.
pub struct Indexed {
    hop_ms: u32,
    peaks: MaxTree,
    silence_starts: Vec<u64>,
    silence_durations: MaxTree,
    scene_changes: Vec<u64>,
}

/// The contents of an [`Indexed`].
pub struct IndexedView {
    pub hop_ms: u32,
    pub peaks: Seq<i64>,
    pub starts: Seq<u64>,
    pub durations: Seq<i64>,
    pub scenes: Seq<u64>,
}

impl View for Indexed {
    type V = IndexedView;

    closed spec fn view(&self) -> IndexedView {
        IndexedView {
            hop_ms: self.hop_ms,
            peaks: self.peaks@,
            starts: self.silence_starts@,
            durations: self.silence_durations@,
            scenes: self.scene_changes@,
        }
    }
}

/// A duration as a level of a tree.
pub open spec fn measured(ms: int) -> i64 {
    if ms > i64::MAX {
        i64::MAX
    } else {
        ms as i64
    }
}

/// The index that an analysis makes.
pub open spec fn indexed(a: Analysis) -> IndexedView {
    IndexedView {
        hop_ms: if a.hop_ms == 0 {
            1
        } else {
            a.hop_ms
        },
        peaks: a.peaks@,
        starts: Seq::new(a.silence@.len(), |i: int| a.silence@[i].start_ms),
        durations: Seq::new(a.silence@.len(), |i: int| measured(a.silence@[i].length())),
        scenes: a.scene_changes@,
    }
}

/// The first of `times`, from the `k`-th on, that lies after `ms` and lasts at
/// least `want`.
pub open spec fn next_span(
    times: Seq<u64>,
    lengths: Seq<i64>,
    k: int,
    ms: u64,
    want: i64,
) -> Option<u64>
    decreases times.len() - k,
{
    if k >= times.len() {
        None
    } else if times[k] > ms && lengths[k] >= want {
        Some(times[k])
    } else {
        next_span(times, lengths, k + 1, ms, want)
    }
}

/// The last of the first `n` of `times` that lies before `ms` and lasts at
/// least `want`.
pub open spec fn previous_span(
    times: Seq<u64>,
    lengths: Seq<i64>,
    n: int,
    ms: u64,
    want: i64,
) -> Option<u64>
    decreases n,
{
    if n <= 0 {
        None
    } else if times[n - 1] < ms && lengths[n - 1] >= want {
        Some(times[n - 1])
    } else {
        previous_span(times, lengths, n - 1, ms, want)
    }
}

/// The first of `times`, from the `k`-th on, that lies after `ms`.
pub open spec fn next_time(times: Seq<u64>, k: int, ms: u64) -> Option<u64>
    decreases times.len() - k,
{
    if k >= times.len() {
        None
    } else if times[k] > ms {
        Some(times[k])
    } else {
        next_time(times, k + 1, ms)
    }
}

/// The last of the first `n` of `times` that lies before `ms`.
pub open spec fn previous_time(times: Seq<u64>, n: int, ms: u64) -> Option<u64>
    decreases n,
{
    if n <= 0 {
        None
    } else if times[n - 1] < ms {
        Some(times[n - 1])
    } else {
        previous_time(times, n - 1, ms)
    }
}

/// Where a search from `ms` arrives. Nothing is tagged, so a search for a tag
/// finds nothing.
pub open spec fn hit(i: IndexedView, p: Predicate, ms: u64, dir: Direction) -> Option<u64> {
    match p {
        Predicate::AudioPeak { threshold_db, .. } => {
            let hop = ms as int / i.hop_ms as int;
            let len = i.peaks.len() as int;
            let at = match dir {
                Direction::Forward => first_in(i.peaks, hop + 1, len, threshold_db),
                Direction::Backward => last_in(
                    i.peaks,
                    0,
                    if hop < len {
                        hop
                    } else {
                        len
                    },
                    threshold_db,
                ),
            };
            match at {
                Some(k) => Some(capped(k * i.hop_ms)),
                None => None,
            }
        },
        Predicate::Silence { min_duration_ms, .. } => match dir {
            Direction::Forward => next_span(i.starts, i.durations, 0, ms, min_duration_ms as i64),
            Direction::Backward => previous_span(
                i.starts,
                i.durations,
                i.starts.len() as int,
                ms,
                min_duration_ms as i64,
            ),
        },
        Predicate::SceneChange { .. } => match dir {
            Direction::Forward => next_time(i.scenes, 0, ms),
            Direction::Backward => previous_time(i.scenes, i.scenes.len() as int, ms),
        },
        Predicate::Tagged { .. } => None,
    }
}

/// The answer of a track that is ready. A hit forward is moved past the frame
/// that the search started from.
pub open spec fn ready_answer(
    i: IndexedView,
    fps: Fps,
    p: Predicate,
    from: Frame,
    dir: Direction,
) -> Answer {
    match hit(i, p, ms_at(from.0, fps), dir) {
        Some(ms) => {
            let f = frame_at(ms, fps);
            if dir == Direction::Forward && f <= from.0 {
                Answer::Found(Frame(capped(from.0 + 1)))
            } else {
                Answer::Found(Frame(f))
            }
        },
        None => Answer::NoMatch,
    }
}

/// The answer of an index.
pub open spec fn answered(
    fps: Option<Fps>,
    tracks: Map<u64, TrackAnalysis>,
    p: Predicate,
    from: Frame,
    dir: Direction,
) -> Answer {
    let track = p.searched().0;
    if fps is Some && tracks.contains_key(track) {
        match tracks[track] {
            TrackAnalysis::Ready(i) => ready_answer(i@, fps->Some_0, p, from, dir),
            _ => Answer::Pending,
        }
    } else {
        Answer::Pending
    }
}

/// A track that is unknown, unfinished or failed is never said to have no
/// match, and one that is ready is never said to be unknown.
pub proof fn only_what_is_measured_is_answered(
    fps: Fps,
    tracks: Map<u64, TrackAnalysis>,
    p: Predicate,
    from: Frame,
    dir: Direction,
)
    ensures
        (answered(Some(fps), tracks, p, from, dir) == Answer::Pending) == !(tracks.contains_key(
            p.searched().0,
        ) && tracks[p.searched().0] is Ready),
{
}

/// A search never stands still: what it finds lies strictly beyond the frame
/// that it started from.
pub proof fn a_hit_lies_beyond_the_origin(
    i: IndexedView,
    fps: Fps,
    p: Predicate,
    from: Frame,
    dir: Direction,
)
    requires
        fps.num > 0,
        fps.den > 0,
        i.hop_ms > 0,
        from.0 < u64::MAX,
    ensures
        ready_answer(i, fps, p, from, dir) matches Answer::Found(f) ==> match dir {
            Direction::Forward => f.0 > from.0,
            Direction::Backward => f.0 < from.0,
        },
{
    let start = ms_at(from.0, fps);
    if dir == Direction::Backward && hit(i, p, start, dir) is Some {
        let ms = hit(i, p, start, dir)->Some_0;
        match p {
            Predicate::AudioPeak { threshold_db, .. } => {
                let hop = start as int / i.hop_ms as int;
                let len = i.peaks.len() as int;
                let end = if hop < len {
                    hop
                } else {
                    len
                };
                lemma_last_in(i.peaks, 0, end, threshold_db);
                let k = last_in(i.peaks, 0, end, threshold_db)->Some_0;
                let step = i.hop_ms as int;
                assert(k * step < hop * step) by (nonlinear_arith)
                    requires
                        k < hop,
                        step > 0,
                ;
                assert(hop * step <= start) by (nonlinear_arith)
                    requires
                        hop == start as int / step,
                        step > 0,
                        start >= 0,
                ;
                assert(k * step >= 0) by (nonlinear_arith)
                    requires
                        k >= 0,
                        step > 0,
                ;
            },
            Predicate::Silence { min_duration_ms, .. } => {
                lemma_previous_span_is_before(
                    i.starts,
                    i.durations,
                    i.starts.len() as int,
                    start,
                    min_duration_ms as i64,
                );
            },
            Predicate::SceneChange { .. } => {
                lemma_previous_time_is_before(i.scenes, i.scenes.len() as int, start);
            },
            Predicate::Tagged { .. } => {},
        }
        assert(ms < start);
        lemma_earlier_shows_earlier(ms as int, from.0 as int, fps.num as int, fps.den as int);
    }
}

proof fn lemma_previous_span_is_before(
    times: Seq<u64>,
    lengths: Seq<i64>,
    n: int,
    ms: u64,
    want: i64,
)
    ensures
        previous_span(times, lengths, n, ms, want) matches Some(t) ==> t < ms,
    decreases n,
{
    if n > 0 {
        lemma_previous_span_is_before(times, lengths, n - 1, ms, want);
    }
}

proof fn lemma_previous_time_is_before(times: Seq<u64>, n: int, ms: u64)
    ensures
        previous_time(times, n, ms) matches Some(t) ==> t < ms,
    decreases n,
{
    if n > 0 {
        lemma_previous_time_is_before(times, n - 1, ms);
    }
}

proof fn lemma_earlier_shows_earlier(ms: int, from: int, num: int, den: int)
    requires
        0 <= ms,
        0 <= from,
        num > 0,
        den > 0,
        ms < (from * 1000 * den) / num,
    ensures
        0 <= (ms * num) / (1000 * den) < from,
{
    let total = from * 1000 * den;
    assert(((total) / num) * num <= total) by (nonlinear_arith)
        requires
            num > 0,
    ;
    assert(ms * num < (total / num) * num) by (nonlinear_arith)
        requires
            ms < total / num,
            num > 0,
    ;
    assert(total == from * (1000 * den)) by (nonlinear_arith)
        requires
            total == from * 1000 * den,
    ;
    let part = ms * num;
    let unit = 1000 * den;
    assert(0 <= part) by (nonlinear_arith)
        requires
            part == ms * num,
            ms >= 0,
            num > 0,
    ;
    assert(0 <= part / unit < from) by (nonlinear_arith)
        requires
            0 <= part < from * unit,
            unit > 0,
    ;
}

proof fn lemma_spans_skip(times: Seq<u64>, lengths: Seq<i64>, k: int, lo: int, ms: u64, want: i64)
    requires
        0 <= k <= lo <= times.len(),
        forall|j: int| 0 <= j < lo ==> times[j] <= ms,
    ensures
        next_span(times, lengths, k, ms, want) == next_span(times, lengths, lo, ms, want),
    decreases lo - k,
{
    if k < lo {
        lemma_spans_skip(times, lengths, k + 1, lo, ms, want);
    }
}

proof fn lemma_spans_follow(times: Seq<u64>, lengths: Seq<i64>, k: int, ms: u64, want: i64)
    requires
        0 <= k <= times.len() == lengths.len(),
        forall|j: int| k <= j < times.len() ==> times[j] > ms,
    ensures
        next_span(times, lengths, k, ms, want) == (match first_in(
            lengths,
            k,
            lengths.len() as int,
            want,
        ) {
            Some(i) => Some(times[i]),
            None => None,
        }),
    decreases times.len() - k,
{
    if k < times.len() {
        lemma_spans_follow(times, lengths, k + 1, ms, want);
    }
}

proof fn lemma_spans_drop(times: Seq<u64>, lengths: Seq<i64>, n: int, hi: int, ms: u64, want: i64)
    requires
        0 <= hi <= n <= times.len(),
        forall|j: int| hi <= j < times.len() ==> times[j] >= ms,
    ensures
        previous_span(times, lengths, n, ms, want) == previous_span(times, lengths, hi, ms, want),
    decreases n - hi,
{
    if hi < n {
        lemma_spans_drop(times, lengths, n - 1, hi, ms, want);
    }
}

proof fn lemma_spans_precede(times: Seq<u64>, lengths: Seq<i64>, n: int, ms: u64, want: i64)
    requires
        0 <= n <= times.len() == lengths.len(),
        forall|j: int| 0 <= j < n ==> times[j] < ms,
    ensures
        previous_span(times, lengths, n, ms, want) == (match last_in(lengths, 0, n, want) {
            Some(i) => Some(times[i]),
            None => None,
        }),
    decreases n,
{
    if n > 0 {
        lemma_spans_precede(times, lengths, n - 1, ms, want);
    }
}

proof fn lemma_times_skip(times: Seq<u64>, k: int, lo: int, ms: u64)
    requires
        0 <= k <= lo <= times.len(),
        forall|j: int| 0 <= j < lo ==> times[j] <= ms,
    ensures
        next_time(times, k, ms) == next_time(times, lo, ms),
    decreases lo - k,
{
    if k < lo {
        lemma_times_skip(times, k + 1, lo, ms);
    }
}

proof fn lemma_times_drop(times: Seq<u64>, n: int, hi: int, ms: u64)
    requires
        0 <= hi <= n <= times.len(),
        forall|j: int| hi <= j < times.len() ==> times[j] >= ms,
    ensures
        previous_time(times, n, ms) == previous_time(times, hi, ms),
    decreases n - hi,
{
    if hi < n {
        lemma_times_drop(times, n - 1, hi, ms);
    }
}

/// How many of `times` lie before `ms`, or at it where `inclusive` is set.
fn partition(times: &Vec<u64>, ms: u64, inclusive: bool) -> (k: usize)
    requires
        in_order(times@),
    ensures
        k <= times@.len(),
        forall|j: int|
            0 <= j < k ==> times@[j] < ms || (inclusive && #[trigger] times@[j] == ms),
        forall|j: int|
            k <= j < times@.len() ==> #[trigger] times@[j] > ms || (!inclusive && times@[j] == ms),
{
    let mut lo: usize = 0;
    let mut hi: usize = times.len();
    while lo < hi
        invariant
            in_order(times@),
            lo <= hi <= times@.len(),
            forall|j: int|
                0 <= j < lo ==> times@[j] < ms || (inclusive && #[trigger] times@[j] == ms),
            forall|j: int|
                hi <= j < times@.len() ==> #[trigger] times@[j] > ms || (!inclusive && times@[j]
                    == ms),
        decreases hi - lo,
    {
        let mid = lo + (hi - lo) / 2;
        let t = times[mid];
        if t < ms || (inclusive && t == ms) {
            lo = mid + 1;
        } else {
            hi = mid;
        }
    }
    lo
}

impl Indexed {
    #[verifier::type_invariant]
    spec fn inv(self) -> bool {
        &&& self.hop_ms > 0
        &&& self.silence_starts@.len() == self.silence_durations@.len()
        &&& in_order(self.silence_starts@)
        &&& in_order(self.scene_changes@)
    }

    /// Makes an analysis ready to be searched.
    pub fn build(analysis: &Analysis) -> (i: Self)
        requires
            analysis.wf(),
            4 * analysis.peaks@.len() <= usize::MAX,
            4 * analysis.silence@.len() <= usize::MAX,
        ensures
            i@ == indexed(*analysis),
    {
        let mut starts: Vec<u64> = Vec::new();
        let mut durations: Vec<i64> = Vec::new();
        let n: usize = analysis.silence.len();
        let mut k: usize = 0;
        while k < n
            invariant
                k <= n == analysis.silence@.len(),
                starts@ =~= indexed(*analysis).starts.take(k as int),
                durations@ =~= indexed(*analysis).durations.take(k as int),
            decreases n - k,
        {
            let span = analysis.silence[k];
            let d = span.duration_ms();
            starts.push(span.start_ms);
            durations.push(
                if d > i64::MAX as u64 {
                    i64::MAX
                } else {
                    d as i64
                },
            );
            k = k + 1;
        }
        let mut scenes: Vec<u64> = Vec::new();
        let m: usize = analysis.scene_changes.len();
        let mut k: usize = 0;
        while k < m
            invariant
                k <= m == analysis.scene_changes@.len(),
                scenes@ =~= analysis.scene_changes@.take(k as int),
            decreases m - k,
        {
            scenes.push(analysis.scene_changes[k]);
            k = k + 1;
        }
        assert(starts@ =~= indexed(*analysis).starts);
        assert(durations@ =~= indexed(*analysis).durations);
        assert(scenes@ =~= analysis.scene_changes@);
        let hop_ms: u32 = if analysis.hop_ms == 0 {
            1
        } else {
            analysis.hop_ms
        };
        Indexed {
            hop_ms,
            peaks: MaxTree::new(analysis.peaks.as_slice()),
            silence_starts: starts,
            silence_durations: MaxTree::new(durations.as_slice()),
            scene_changes: scenes,
        }
    }

    fn peak(&self, threshold: i64, from_ms: u64, dir: Direction) -> (r: Option<u64>)
        ensures
            forall|track: TrackId|
                r == #[trigger] hit(
                    self@,
                    Predicate::AudioPeak { track, threshold_db: threshold },
                    from_ms,
                    dir,
                ),
    {
        proof {
            use_type_invariant(self);
        }
        let hop: u64 = from_ms / (self.hop_ms as u64);
        let n: usize = self.peaks.len();
        let found = match dir {
            Direction::Forward => {
                proof {
                    lemma_first_in(self.peaks@, hop + 1, n as int, threshold);
                }
                if hop < n as u64 {
                    self.peaks.first_at_least(hop as usize + 1, threshold)
                } else {
                    None
                }
            },
            Direction::Backward => {
                if hop == 0 {
                    None
                } else {
                    let before: usize = if hop - 1 < n as u64 {
                        (hop - 1) as usize
                    } else {
                        n
                    };
                    self.peaks.last_at_least(before, threshold)
                }
            },
        };
        match found {
            Some(i) => {
                let step: u32 = self.hop_ms;
                assert(i * step <= u64::MAX * u32::MAX) by (nonlinear_arith)
                    requires
                        0 <= i <= u64::MAX,
                        0 <= step <= u32::MAX,
                ;
                Some(cap(i as u128 * step as u128))
            },
            None => None,
        }
    }

    fn silence(&self, want: u32, from_ms: u64, dir: Direction) -> (r: Option<u64>)
        ensures
            forall|track: TrackId, level: i64|
                r == #[trigger] hit(
                    self@,
                    Predicate::Silence { track, min_duration_ms: want, threshold_db: level },
                    from_ms,
                    dir,
                ),
    {
        proof {
            use_type_invariant(self);
        }
        let ghost starts = self.silence_starts@;
        let ghost lengths = self.silence_durations@;
        match dir {
            Direction::Forward => {
                let lo = partition(&self.silence_starts, from_ms, true);
                proof {
                    lemma_spans_skip(starts, lengths, 0, lo as int, from_ms, want as i64);
                    lemma_spans_follow(starts, lengths, lo as int, from_ms, want as i64);
                    lemma_first_in(lengths, lo as int, lengths.len() as int, want as i64);
                }
                match self.silence_durations.first_at_least(lo, want as i64) {
                    Some(i) => Some(self.silence_starts[i]),
                    None => None,
                }
            },
            Direction::Backward => {
                let hi = partition(&self.silence_starts, from_ms, false);
                proof {
                    lemma_spans_drop(
                        starts,
                        lengths,
                        starts.len() as int,
                        hi as int,
                        from_ms,
                        want as i64,
                    );
                    lemma_spans_precede(starts, lengths, hi as int, from_ms, want as i64);
                    lemma_last_in(lengths, 0, hi as int, want as i64);
                }
                if hi == 0 {
                    return None;
                }
                match self.silence_durations.last_at_least(hi - 1, want as i64) {
                    Some(i) => Some(self.silence_starts[i]),
                    None => None,
                }
            },
        }
    }

    fn scene_change(&self, from_ms: u64, dir: Direction) -> (r: Option<u64>)
        ensures
            forall|track: TrackId|
                r == #[trigger] hit(self@, Predicate::SceneChange { track }, from_ms, dir),
    {
        proof {
            use_type_invariant(self);
        }
        let ghost times = self.scene_changes@;
        let n: usize = self.scene_changes.len();
        match dir {
            Direction::Forward => {
                let i = partition(&self.scene_changes, from_ms, true);
                proof {
                    lemma_times_skip(times, 0, i as int, from_ms);
                }
                if i < n {
                    Some(self.scene_changes[i])
                } else {
                    None
                }
            },
            Direction::Backward => {
                let i = partition(&self.scene_changes, from_ms, false);
                proof {
                    lemma_times_drop(times, n as int, i as int, from_ms);
                }
                if i == 0 {
                    None
                } else {
                    Some(self.scene_changes[i - 1])
                }
            },
        }
    }

    fn find(&self, fps: Fps, predicate: &Predicate, from: Frame, dir: Direction) -> (a: Answer)
        requires
            fps.num > 0,
            fps.den > 0,
        ensures
            a == ready_answer(self@, fps, *predicate, from, dir),
    {
        let from_ms = ms_at_frame(from, fps);
        let found = match predicate {
            Predicate::AudioPeak { threshold_db, .. } => self.peak(*threshold_db, from_ms, dir),
            Predicate::Silence { min_duration_ms, .. } => self.silence(
                *min_duration_ms,
                from_ms,
                dir,
            ),
            Predicate::SceneChange { .. } => self.scene_change(from_ms, dir),
            Predicate::Tagged { .. } => None,
        };
        proof {
            let track = predicate.searched();
            match *predicate {
                Predicate::AudioPeak { threshold_db, .. } => {
                    assert(*predicate == Predicate::AudioPeak { track, threshold_db });
                },
                Predicate::Silence { min_duration_ms, threshold_db, .. } => {
                    assert(*predicate == Predicate::Silence {
                        track,
                        min_duration_ms,
                        threshold_db,
                    });
                },
                _ => {},
            }
        }
        match found {
            Some(ms) => {
                let frame = frame_at_ms(ms, fps);
                match dir {
                    Direction::Forward => if frame.0 <= from.0 {
                        Answer::Found(Frame(from.0.saturating_add(1)))
                    } else {
                        Answer::Found(frame)
                    },
                    Direction::Backward => Answer::Found(frame),
                }
            },
            None => Answer::NoMatch,
        }
    }
}

/// The index of all tracks.
pub struct AnalysisIndex {
    fps: Option<Fps>,
    tracks: BTreeMap<u64, TrackAnalysis>,
}

impl AnalysisIndex {
    #[verifier::type_invariant]
    spec fn inv(self) -> bool {
        self.fps matches Some(f) ==> f.num > 0 && f.den > 0
    }

    /// The rate that frames are counted at.
    pub closed spec fn rate(&self) -> Option<Fps> {
        self.fps
    }

    /// What is known of each track, by its number.
    pub closed spec fn known(&self) -> Map<u64, TrackAnalysis> {
        self.tracks@
    }

    pub fn new(fps: Fps) -> (i: Self)
        requires
            fps.num > 0,
            fps.den > 0,
        ensures
            i.rate() == Some(fps),
            i.known() == Map::<u64, TrackAnalysis>::empty(),
    {
        AnalysisIndex { fps: Some(fps), tracks: BTreeMap::new() }
    }

    fn put(&mut self, track: TrackId, what: TrackAnalysis)
        ensures
            final(self).rate() == old(self).rate(),
            final(self).known() == old(self).known().insert(track.0, what),
    {
        proof {
            use_type_invariant(&*self);
        }
        let mut tracks: BTreeMap<u64, TrackAnalysis> = BTreeMap::new();
        std::mem::swap(&mut tracks, &mut self.tracks);
        tracks.insert(track.0, what);
        self.tracks = tracks;
    }

    /// Says that a track is being analysed.
    pub fn set_pending(&mut self, track: TrackId)
        ensures
            final(self).rate() == old(self).rate(),
            final(self).known() == old(self).known().insert(
                track.0,
                TrackAnalysis::Pending,
            ),
    {
        self.put(track, TrackAnalysis::Pending);
    }

    /// Says that the analysis of a track failed.
    pub fn set_failed(&mut self, track: TrackId, reason: String)
        ensures
            final(self).rate() == old(self).rate(),
            final(self).known() == old(self).known().insert(
                track.0,
                TrackAnalysis::Failed(reason),
            ),
    {
        self.put(track, TrackAnalysis::Failed(reason));
    }

    /// Publishes the finished analysis of a track.
    pub fn insert(&mut self, track: TrackId, analysis: &Analysis)
        requires
            analysis.wf(),
            4 * analysis.peaks@.len() <= usize::MAX,
            4 * analysis.silence@.len() <= usize::MAX,
        ensures
            final(self).rate() == old(self).rate(),
            final(self).known().remove(track.0) == old(self).known().remove(track.0),
            final(self).known().contains_key(track.0),
            final(self).known()[track.0] matches TrackAnalysis::Ready(i) && i@ == indexed(
                *analysis,
            ),
    {
        let i = Indexed::build(analysis);
        self.put(track, TrackAnalysis::Ready(Box::new(i)));
        assert(self.known().remove(track.0) =~= old(self).known().remove(track.0));
    }

    /// Says that what was measured of a track no longer holds.
    pub fn invalidate(&mut self, track: TrackId)
        ensures
            final(self).rate() == old(self).rate(),
            final(self).known() == if old(self).known().contains_key(track.0) {
                old(self).known().insert(track.0, TrackAnalysis::Pending)
            } else {
                old(self).known()
            },
    {
        let known = self.tracks.contains_key(&track.0);
        if known {
            self.put(track, TrackAnalysis::Pending);
        }
    }

    pub fn state(&self, track: TrackId) -> (s: Option<&TrackAnalysis>)
        ensures
            match s {
                Some(t) => self.known().contains_key(track.0) && self.known()[track.0]
                    == *t,
                None => !self.known().contains_key(track.0),
            },
    {
        self.tracks.get(&track.0)
    }

    pub fn is_ready(&self, track: TrackId) -> (b: bool)
        ensures
            b == (self.known().contains_key(track.0) && self.known()[track.0] is Ready),
    {
        self.ready(track).is_some()
    }

    fn ready(&self, track: TrackId) -> (i: Option<&Indexed>)
        ensures
            match i {
                Some(x) => self.known().contains_key(track.0) && (self.known()[
                track.0] matches TrackAnalysis::Ready(y) && *y == *x),
                None => !(self.known().contains_key(track.0) && self.known()[
                track.0] is Ready),
            },
    {
        match self.state(track) {
            Some(TrackAnalysis::Ready(i)) => Some(&**i),
            _ => None,
        }
    }
}

impl Default for AnalysisIndex {
    fn default() -> (i: Self)
        ensures
            i.rate() is None,
            i.known() == Map::<u64, TrackAnalysis>::empty(),
    {
        AnalysisIndex { fps: None, tracks: BTreeMap::new() }
    }
}

impl PredicateIndex for AnalysisIndex {
    open spec fn answer(&self, predicate: Predicate, from: Frame, dir: Direction) -> Answer {
        answered(self.rate(), self.known(), predicate, from, dir)
    }

    fn find(&self, predicate: &Predicate, from: Frame, dir: Direction) -> (a: Answer) {
        proof {
            use_type_invariant(self);
        }
        match (self.fps, self.ready(predicate.track())) {
            (Some(fps), Some(i)) => i.find(fps, predicate, from, dir),
            _ => Answer::Pending,
        }
    }
}

/// A frame begins at its millisecond, rounded down, and at a millisecond the
/// frame shows that has begun and not ended.
pub proof fn times_and_frames_agree(frame: u64, ms: u64, fps: Fps)
    requires
        fps.num > 0,
        fps.den > 0,
    ensures
        (frame * 1000 * fps.den) / (fps.num as int) <= u64::MAX ==> {
            &&& ms_at(frame, fps) * fps.num <= frame * 1000 * fps.den
            &&& frame * 1000 * fps.den < (ms_at(frame, fps) + 1) * fps.num
        },
        (ms * fps.num) / (1000 * fps.den) <= u64::MAX ==> {
            &&& frame_at(ms, fps) * (1000 * fps.den) <= ms * fps.num
            &&& ms * fps.num < (frame_at(ms, fps) + 1) * (1000 * fps.den)
        },
{
    let num = fps.num as int;
    let den = 1000 * fps.den;
    let a = frame * 1000 * fps.den;
    let b = ms * fps.num;
    assert(a >= 0) by (nonlinear_arith)
        requires
            a == frame * 1000 * fps.den,
            frame >= 0,
            fps.den >= 0,
    ;
    assert(b >= 0) by (nonlinear_arith)
        requires
            b == ms * fps.num,
            ms >= 0,
            fps.num >= 0,
    ;
    vstd::arithmetic::div_mod::lemma_fundamental_div_mod(a, num);
    vstd::arithmetic::div_mod::lemma_mod_bound(a, num);
    vstd::arithmetic::div_mod::lemma_fundamental_div_mod(b, den);
    vstd::arithmetic::div_mod::lemma_mod_bound(b, den);
    let q = a / num;
    let r = b / den;
    assert(q >= 0) by (nonlinear_arith)
        requires
            q == a / num,
            a >= 0,
            num > 0,
    ;
    assert(r >= 0) by (nonlinear_arith)
        requires
            r == b / den,
            b >= 0,
            den > 0,
    ;
    assert(q * num == num * q && (q + 1) * num == num * q + num) by (nonlinear_arith);
    assert(r * den == den * r && (r + 1) * den == den * r + den) by (nonlinear_arith);
}

proof fn lemma_next_time(times: Seq<u64>, k: int, ms: u64)
    requires
        0 <= k <= times.len(),
    ensures
        match next_time(times, k, ms) {
            Some(t) => exists|i: int|
                {
                    &&& k <= i < times.len()
                    &&& #[trigger] times[i] == t
                    &&& t > ms
                    &&& forall|j: int| k <= j < i ==> #[trigger] times[j] <= ms
                },
            None => forall|j: int| k <= j < times.len() ==> #[trigger] times[j] <= ms,
        },
    decreases times.len() - k,
{
    if k < times.len() && times[k] <= ms {
        lemma_next_time(times, k + 1, ms);
    }
}

proof fn lemma_previous_time(times: Seq<u64>, n: int, ms: u64)
    requires
        0 <= n <= times.len(),
    ensures
        match previous_time(times, n, ms) {
            Some(t) => exists|i: int|
                {
                    &&& 0 <= i < n
                    &&& #[trigger] times[i] == t
                    &&& t < ms
                    &&& forall|j: int| i < j < n ==> #[trigger] times[j] >= ms
                },
            None => forall|j: int| 0 <= j < n ==> #[trigger] times[j] >= ms,
        },
    decreases n,
{
    if n > 0 && times[n - 1] >= ms {
        lemma_previous_time(times, n - 1, ms);
    }
}

/// A search for a scene change arrives at the nearest one beyond.
pub proof fn the_nearest_scene_change_is_found(
    i: IndexedView,
    track: TrackId,
    ms: u64,
    dir: Direction,
)
    requires
        in_order(i.scenes),
    ensures
        ({
            let beyond = |t: u64|
                if dir == Direction::Forward {
                    t > ms
                } else {
                    t < ms
                };
            match hit(i, Predicate::SceneChange { track }, ms, dir) {
                Some(t) => {
                    &&& i.scenes.contains(t)
                    &&& beyond(t)
                    &&& forall|j: int|
                        0 <= j < i.scenes.len() && beyond(#[trigger] i.scenes[j]) ==> if dir
                            == Direction::Forward {
                            t <= i.scenes[j]
                        } else {
                            t >= i.scenes[j]
                        }
                },
                None => forall|j: int| 0 <= j < i.scenes.len() ==> !beyond(#[trigger] i.scenes[j]),
            }
        }),
{
    lemma_next_time(i.scenes, 0, ms);
    lemma_previous_time(i.scenes, i.scenes.len() as int, ms);
}

/// A search for a peak arrives at the nearest measured level beyond that
/// reaches the threshold.
pub proof fn the_nearest_peak_is_found(
    i: IndexedView,
    track: TrackId,
    threshold: i64,
    ms: u64,
    dir: Direction,
)
    requires
        i.hop_ms > 0,
    ensures
        ({
            let hop = ms as int / i.hop_ms as int;
            let beyond = |k: int|
                if dir == Direction::Forward {
                    k > hop
                } else {
                    k < hop
                };
            match hit(i, Predicate::AudioPeak { track, threshold_db: threshold }, ms, dir) {
                Some(t) => exists|k: int|
                    {
                        &&& 0 <= k < i.peaks.len()
                        &&& beyond(k)
                        &&& #[trigger] i.peaks[k] >= threshold
                        &&& k * i.hop_ms <= u64::MAX ==> t == k * i.hop_ms
                        &&& forall|j: int|
                            0 <= j < i.peaks.len() && beyond(j) && #[trigger] i.peaks[j]
                                >= threshold ==> if dir == Direction::Forward {
                                k <= j
                            } else {
                                k >= j
                            }
                    },
                None => forall|j: int|
                    0 <= j < i.peaks.len() && beyond(j) ==> #[trigger] i.peaks[j] < threshold,
            }
        }),
{
    let hop = ms as int / i.hop_ms as int;
    let len = i.peaks.len() as int;
    assert(hop >= 0) by (nonlinear_arith)
        requires
            hop == ms as int / i.hop_ms as int,
            ms >= 0,
            i.hop_ms > 0,
    ;
    lemma_first_in(i.peaks, hop + 1, len, threshold);
    lemma_last_in(
        i.peaks,
        0,
        if hop < len {
            hop
        } else {
            len
        },
        threshold,
    );
}

proof fn lemma_next_span(times: Seq<u64>, lengths: Seq<i64>, k: int, ms: u64, want: i64)
    requires
        0 <= k <= times.len() == lengths.len(),
    ensures
        match next_span(times, lengths, k, ms, want) {
            Some(t) => exists|i: int|
                {
                    &&& k <= i < times.len()
                    &&& #[trigger] times[i] == t
                    &&& t > ms
                    &&& lengths[i] >= want
                    &&& forall|j: int|
                        k <= j < i ==> #[trigger] times[j] <= ms || lengths[j] < want
                },
            None => forall|j: int|
                k <= j < times.len() ==> #[trigger] times[j] <= ms || lengths[j] < want,
        },
    decreases times.len() - k,
{
    if k < times.len() && !(times[k] > ms && lengths[k] >= want) {
        lemma_next_span(times, lengths, k + 1, ms, want);
    }
}

proof fn lemma_previous_span(times: Seq<u64>, lengths: Seq<i64>, n: int, ms: u64, want: i64)
    requires
        0 <= n <= times.len() == lengths.len(),
    ensures
        match previous_span(times, lengths, n, ms, want) {
            Some(t) => exists|i: int|
                {
                    &&& 0 <= i < n
                    &&& #[trigger] times[i] == t
                    &&& t < ms
                    &&& lengths[i] >= want
                    &&& forall|j: int|
                        i < j < n ==> #[trigger] times[j] >= ms || lengths[j] < want
                },
            None => forall|j: int|
                0 <= j < n ==> #[trigger] times[j] >= ms || lengths[j] < want,
        },
    decreases n,
{
    if n > 0 && !(times[n - 1] < ms && lengths[n - 1] >= want) {
        lemma_previous_span(times, lengths, n - 1, ms, want);
    }
}

/// A search for silence arrives at the start of the nearest stretch beyond that
/// lasts long enough.
pub proof fn the_nearest_silence_is_found(
    a: Analysis,
    track: TrackId,
    level: i64,
    want: u32,
    ms: u64,
    dir: Direction,
)
    requires
        a.wf(),
        forall|j: int|
            0 <= j < a.silence@.len() ==> (#[trigger] a.silence@[j]).end_ms <= i64::MAX,
    ensures
        ({
            let p = Predicate::Silence { track, min_duration_ms: want, threshold_db: level };
            let fits = |s: SilenceSpan|
                {
                    &&& s.end_ms - s.start_ms >= want
                    &&& s.start_ms <= s.end_ms
                    &&& if dir == Direction::Forward {
                        s.start_ms > ms
                    } else {
                        s.start_ms < ms
                    }
                };
            match hit(indexed(a), p, ms, dir) {
                Some(t) => want > 0 ==> {
                    &&& exists|j: int|
                        0 <= j < a.silence@.len() && fits(#[trigger] a.silence@[j])
                            && a.silence@[j].start_ms == t
                    &&& forall|j: int|
                        0 <= j < a.silence@.len() && fits(#[trigger] a.silence@[j]) ==> if dir
                            == Direction::Forward {
                            t <= a.silence@[j].start_ms
                        } else {
                            t >= a.silence@[j].start_ms
                        }
                },
                None => forall|j: int|
                    0 <= j < a.silence@.len() ==> !fits(#[trigger] a.silence@[j]),
            }
        }),
{
    let i = indexed(a);
    let n = i.starts.len() as int;
    lemma_next_span(i.starts, i.durations, 0, ms, want as i64);
    lemma_previous_span(i.starts, i.durations, n, ms, want as i64);
    assert forall|j: int| 0 <= j < n implies i.starts[j] == (#[trigger] a.silence@[j]).start_ms
        && i.durations[j] == a.silence@[j].length() by {}
    let p = Predicate::Silence { track, min_duration_ms: want, threshold_db: level };
    if let Some(t) = hit(i, p, ms, dir) {
        let j = choose|j: int|
            {
                &&& 0 <= j < n
                &&& #[trigger] i.starts[j] == t
                &&& i.durations[j] >= want
                &&& if dir == Direction::Forward {
                    t > ms && forall|m: int|
                        0 <= m < j ==> #[trigger] i.starts[m] <= ms || i.durations[m] < want
                } else {
                    t < ms && forall|m: int|
                        j < m < n ==> #[trigger] i.starts[m] >= ms || i.durations[m] < want
                }
            };
        assert(a.silence@[j].start_ms == t);
    }
}

/// What is answered is the frame that shows at the hit, and no match only where
/// there is no hit.
pub proof fn the_frame_at_the_hit_is_answered(
    i: IndexedView,
    fps: Fps,
    p: Predicate,
    from: Frame,
    dir: Direction,
)
    ensures
        match hit(i, p, ms_at(from.0, fps), dir) {
            None => ready_answer(i, fps, p, from, dir) == Answer::NoMatch,
            Some(ms) => ready_answer(i, fps, p, from, dir) matches Answer::Found(f) && (dir
                == Direction::Backward || frame_at(ms, fps) > from.0 ==> f.0 == frame_at(ms, fps)),
        },
{
}

/// An index holds what was measured: the peaks and the scene changes as they
/// are, and of every silence its start and how long it lasts. Peaks that are no
/// time apart are taken to be one millisecond apart.
pub proof fn an_index_holds_what_was_measured(a: Analysis, i: int)
    requires
        0 <= i < a.silence@.len(),
        a.silence@[i].length() <= i64::MAX,
    ensures
        indexed(a).peaks == a.peaks@,
        indexed(a).scenes == a.scene_changes@,
        indexed(a).starts.len() == a.silence@.len(),
        indexed(a).durations.len() == a.silence@.len(),
        indexed(a).starts[i] == a.silence@[i].start_ms,
        indexed(a).durations[i] == a.silence@[i].length(),
        indexed(a).hop_ms >= 1,
        a.hop_ms >= 1 ==> indexed(a).hop_ms == a.hop_ms,
        a.hop_ms == 0 ==> indexed(a).hop_ms == 1,
{
}

} // verus!
