//! Stills: one picture at a time, while nothing plays.
//!
//! Stepping backwards one frame at a time would decode a whole group of
//! pictures for each step. Instead the run that leads up to the frame is
//! decoded at once, and the steps that follow find their pictures there.
use vstd::prelude::*;

use crate::frames::Picture;
use crate::frames::PreviewScale;
use crate::frames::VideoFrame;
use crate::mlt::cache::FrameCache;
use crate::mlt::cache::is_frame;
use crate::mlt::cache::within;
use crate::mlt::scrub::less;
use crate::mlt::scrub::one_at_least;
use crate::model::Frame;

verus! {

/// Whether a list of entries has a frame.
pub open spec fn has_frame(
    entries: Seq<(PreviewScale, VideoFrame)>,
    at: Frame,
    scale: PreviewScale,
) -> bool {
    exists|i: int| 0 <= i < entries.len() && is_frame(#[trigger] entries[i], at, scale)
}

/// The entries of a cache after a picture.
pub open spec fn with_frame(
    entries: Seq<(PreviewScale, VideoFrame)>,
    limit: int,
    scale: PreviewScale,
    frame: VideoFrame,
) -> Seq<(PreviewScale, VideoFrame)> {
    if has_frame(entries, frame.position, scale) || frame.rgba@.len() > limit {
        entries
    } else {
        within(entries.push((scale, frame)), limit)
    }
}

/// The entries of a cache after the first `n` pictures of a run.
pub open spec fn with_frames(
    entries: Seq<(PreviewScale, VideoFrame)>,
    limit: int,
    scale: PreviewScale,
    run: Seq<VideoFrame>,
    n: int,
) -> Seq<(PreviewScale, VideoFrame)>
    decreases n,
{
    if n <= 0 {
        entries
    } else {
        with_frame(with_frames(entries, limit, scale, run, n - 1), limit, scale, run[n - 1])
    }
}

/// The lowest position among the first `n` pictures of a run, and a floor.
pub open spec fn floor_after(floor: Option<u64>, run: Seq<VideoFrame>, n: int) -> Option<u64>
    decreases n,
{
    if n <= 0 {
        floor
    } else {
        let p = run[n - 1].position.0;
        match floor_after(floor, run, n - 1) {
            None => Some(p),
            Some(f) => Some(
                if p < f {
                    p
                } else {
                    f
                },
            ),
        }
    }
}

/// The last of the first `n` pictures of a run at a position.
pub open spec fn wanted_in(run: Seq<VideoFrame>, at: Frame, n: int) -> Option<Picture>
    decreases n,
{
    if n <= 0 {
        None
    } else if run[n - 1].position == at {
        Some(run[n - 1]@)
    } else {
        wanted_in(run, at, n - 1)
    }
}

/// A count, held at the largest that fits.
pub open spec fn counted(n: int) -> usize {
    if n > usize::MAX {
        usize::MAX
    } else {
        n as usize
    }
}

/// The stills, and what is needed to decode ahead of a walk backwards.
#[derive(Debug)]
pub struct Stills {
    pub frames: FrameCache,
    /// The lowest frame of the run that is there.
    pub run_floor: Option<u64>,
    /// The frame that was asked for last.
    pub last_request: Option<Frame>,
    /// How many frames a step backwards decodes.
    pub backstep_run: u64,
    pub decodes: usize,
    pub cache_hits: usize,
    /// Pictures that were ready before they were asked for.
    pub prefetched: usize,
}

/// What to decode ahead.
#[derive(Clone, Copy, Debug, PartialEq, Eq, Structural)]
pub enum Ahead {
    /// Something plays: stop decoding ahead.
    Stop,
    /// Nothing more is needed yet.
    Nothing,
    Decode { start: Frame, end: Frame },
}

/// What to decode ahead of a walk that is at `at`: the run below what is there,
/// once the walk has reached the lowest run.
pub open spec fn ahead_of(floor: Option<u64>, backstep: u64, at: Frame, playing: bool) -> Ahead {
    if playing {
        Ahead::Stop
    } else {
        match floor {
            None => Ahead::Nothing,
            Some(f) => if f == 0 || at.0 > f + one_at_least(backstep as int) {
                Ahead::Nothing
            } else {
                Ahead::Decode {
                    start: Frame(less(f - 1, one_at_least(backstep as int) - 1) as u64),
                    end: Frame((f - 1) as u64),
                }
            },
        }
    }
}

/// What is decoded ahead ends just below what is there, and is no longer than
/// a run, so a walk backwards always stays within a run of it.
pub proof fn decoding_ahead_stays_a_run_ahead(floor: u64, backstep: u64, at: Frame)
    ensures
        ahead_of(Some(floor), backstep, at, false) matches Ahead::Decode { start, end } ==> {
            &&& end.0 + 1 == floor
            &&& start.0 <= end.0
            &&& end.0 - start.0 < one_at_least(backstep as int)
            &&& at.0 <= floor + one_at_least(backstep as int)
        },
{
}

/// Where decoding starts for a frame.
pub open spec fn run_start(at: Frame, backstep: u64, back: bool) -> int {
    if back {
        less(at.0 as int, less(backstep as int, 1))
    } else {
        at.0 as int
    }
}

/// What is done next for a picture that was asked for.
#[derive(Debug)]
pub enum Next {
    /// The picture is there.
    Served(VideoFrame),
    /// A worker may be decoding it.
    Wait,
    /// The run from `start` up to it is decoded.
    Decode { start: Frame },
}

/// Whether a list holds this picture of a position.
pub open spec fn holds_picture(
    entries: Seq<(PreviewScale, VideoFrame)>,
    at: Frame,
    scale: PreviewScale,
    p: Picture,
) -> bool {
    exists|i: int|
        0 <= i < entries.len() && is_frame(#[trigger] entries[i], at, scale) && entries[i].1@ == p
}

impl Stills {
    pub open spec fn wf(self) -> bool {
        self.frames.wf()
    }

    pub fn new() -> (s: Self)
        ensures
            s.wf(),
            s.frames.entries() == Seq::<(PreviewScale, VideoFrame)>::empty(),
            s.run_floor is None,
            s.last_request is None,
            s.backstep_run == 12,
            s.decodes == 0,
            s.cache_hits == 0,
            s.prefetched == 0,
    {
        Stills {
            frames: FrameCache::default(),
            run_floor: None,
            last_request: None,
            backstep_run: 12,
            decodes: 0,
            cache_hits: 0,
            prefetched: 0,
        }
    }

    /// Takes note of the frame that is asked for, and says whether that is a
    /// step backwards.
    pub fn request(&mut self, at: Frame) -> (back: bool)
        ensures
            back == (old(self).last_request matches Some(p) && p.0 > at.0),
            *final(self) == (Stills { last_request: Some(at), ..*old(self) }),
    {
        let back = match self.last_request {
            Some(p) => p.0 > at.0,
            None => false,
        };
        self.last_request = Some(at);
        back
    }

    /// The frame, where it is there.
    pub fn serve(&mut self, at: Frame, scale: PreviewScale) -> (f: Option<VideoFrame>)
        requires
            old(self).wf(),
        ensures
            final(self).wf(),
            match f {
                Some(p) => {
                    &&& exists|i: int|
                        0 <= i < old(self).frames.entries().len() && is_frame(
                            #[trigger] old(self).frames.entries()[i],
                            at,
                            scale,
                        ) && old(self).frames.entries()[i].1@ == p@
                    &&& *final(self) == (Stills {
                        cache_hits: counted(old(self).cache_hits + 1),
                        ..*old(self)
                    })
                },
                None => !old(self).frames.holds(at, scale) && *final(self) == *old(self),
            },
    {
        let found = match self.frames.get(at, scale) {
            Some(f) => Some(f.clone()),
            None => None,
        };
        if found.is_some() {
            self.cache_hits = self.cache_hits.saturating_add(1);
        }
        found
    }

    /// Takes pictures that were decoded ahead; `early` says whether they were
    /// there before they were asked for.
    pub fn adopt(&mut self, scale: PreviewScale, ready: Vec<VideoFrame>, early: bool)
        requires
            old(self).wf(),
        ensures
            final(self).wf(),
            final(self).frames.entries() == with_frames(
                old(self).frames.entries(),
                old(self).frames.limit(),
                scale,
                ready@,
                ready@.len() as int,
            ),
            final(self).frames.limit() == old(self).frames.limit(),
            final(self).run_floor == floor_after(
                old(self).run_floor,
                ready@,
                ready@.len() as int,
            ),
            final(self).decodes == counted(old(self).decodes + ready@.len()),
            final(self).prefetched == if early {
                counted(old(self).prefetched + ready@.len())
            } else {
                old(self).prefetched
            },
            final(self).cache_hits == old(self).cache_hits,
            final(self).last_request == old(self).last_request,
            final(self).backstep_run == old(self).backstep_run,
    {
        let ghost all = ready@;
        let ghost start = self.frames.entries();
        let ghost limit = self.frames.limit();
        let mut ready = ready;
        let ghost mut i: int = 0;
        assert(all.skip(0) =~= all);
        while ready.len() > 0
            invariant
                0 <= i <= all.len(),
                ready@ == all.skip(i),
                self.wf(),
                start == old(self).frames.entries(),
                limit == old(self).frames.limit(),
                self.frames.limit() == limit,
                self.frames.entries() == with_frames(start, limit, scale, all, i),
                self.run_floor == floor_after(old(self).run_floor, all, i),
                self.decodes == counted(old(self).decodes + i),
                self.prefetched == if early {
                    counted(old(self).prefetched + i)
                } else {
                    old(self).prefetched
                },
                self.cache_hits == old(self).cache_hits,
                self.last_request == old(self).last_request,
                self.backstep_run == old(self).backstep_run,
            decreases ready@.len(),
        {
            let frame = ready.remove(0);
            assert(frame == all[i]);
            assert(ready@ =~= all.skip(i + 1));
            self.decodes = self.decodes.saturating_add(1);
            if early {
                self.prefetched = self.prefetched.saturating_add(1);
            }
            let p: u64 = frame.position.0;
            self.run_floor = match self.run_floor {
                None => Some(p),
                Some(f) => Some(
                    if p < f {
                        p
                    } else {
                        f
                    },
                ),
            };
            proof {
                assert(self.frames.holds(frame.position, scale) == has_frame(
                    self.frames.entries(),
                    frame.position,
                    scale,
                ));
            }
            self.frames.insert(scale, frame);
            proof {
                i = i + 1;
            }
        }
    }

    /// The first frame to decode for `at`.
    pub fn start_of(&self, at: Frame, back: bool) -> (start: Frame)
        ensures
            start.0 == run_start(at, self.backstep_run, back),
    {
        if back {
            Frame(at.0.saturating_sub(self.backstep_run.saturating_sub(1)))
        } else {
            at
        }
    }

    /// Takes a decoded run, and returns the frame that was asked for; `None`
    /// where the run does not hold it. `walked` is the start of a run that was
    /// decoded for a step backwards: once it is there, nothing lower is.
    pub fn keep_run(
        &mut self,
        scale: PreviewScale,
        target: Frame,
        run: Vec<VideoFrame>,
        walked: Option<Frame>,
    ) -> (f: Option<VideoFrame>)
        requires
            old(self).wf(),
        ensures
            final(self).wf(),
            match f {
                Some(p) => wanted_in(run@, target, run@.len() as int) == Some(p@),
                None => wanted_in(run@, target, run@.len() as int) is None,
            },
            final(self).frames.entries() == with_frames(
                old(self).frames.entries(),
                old(self).frames.limit(),
                scale,
                run@,
                run@.len() as int,
            ),
            final(self).frames.limit() == old(self).frames.limit(),
            final(self).decodes == counted(old(self).decodes + run@.len()),
            final(self).run_floor == match (f, walked) {
                (Some(_), Some(start)) => Some(start.0),
                _ => old(self).run_floor,
            },
            final(self).prefetched == old(self).prefetched,
            final(self).cache_hits == old(self).cache_hits,
            final(self).last_request == old(self).last_request,
            final(self).backstep_run == old(self).backstep_run,
    {
        let ghost all = run@;
        let ghost start = self.frames.entries();
        let ghost limit = self.frames.limit();
        let mut run = run;
        let mut wanted: Option<VideoFrame> = None;
        let ghost mut i: int = 0;
        assert(all.skip(0) =~= all);
        while run.len() > 0
            invariant
                0 <= i <= all.len(),
                run@ == all.skip(i),
                self.wf(),
                start == old(self).frames.entries(),
                limit == old(self).frames.limit(),
                self.frames.limit() == limit,
                self.frames.entries() == with_frames(start, limit, scale, all, i),
                match wanted {
                    Some(p) => wanted_in(all, target, i) == Some(p@),
                    None => wanted_in(all, target, i) is None,
                },
                self.decodes == counted(old(self).decodes + i),
                self.run_floor == old(self).run_floor,
                self.prefetched == old(self).prefetched,
                self.cache_hits == old(self).cache_hits,
                self.last_request == old(self).last_request,
                self.backstep_run == old(self).backstep_run,
            decreases run@.len(),
        {
            let frame = run.remove(0);
            assert(frame == all[i]);
            assert(run@ =~= all.skip(i + 1));
            self.decodes = self.decodes.saturating_add(1);
            if frame.position == target {
                wanted = Some(frame.clone());
            }
            proof {
                assert(self.frames.holds(frame.position, scale) == has_frame(
                    self.frames.entries(),
                    frame.position,
                    scale,
                ));
            }
            self.frames.insert(scale, frame);
            proof {
                i = i + 1;
            }
        }
        if let (Some(_), Some(first)) = (&wanted, walked) {
            self.run_floor = Some(first.0);
        }
        wanted
    }

    /// Begins on the picture at `at`. `ready` is what was decoded ahead since
    /// the last one, and `worker` says whether more may be coming.
    pub fn begin(
        &mut self,
        scale: PreviewScale,
        at: Frame,
        back: bool,
        ready: Vec<VideoFrame>,
        worker: bool,
    ) -> (n: Next)
        requires
            old(self).wf(),
        ensures
            final(self).wf(),
            final(self).frames.entries() == with_frames(
                old(self).frames.entries(),
                old(self).frames.limit(),
                scale,
                ready@,
                ready@.len() as int,
            ),
            final(self).frames.limit() == old(self).frames.limit(),
            final(self).run_floor == floor_after(
                old(self).run_floor,
                ready@,
                ready@.len() as int,
            ),
            final(self).decodes == counted(old(self).decodes + ready@.len()),
            final(self).prefetched == counted(old(self).prefetched + ready@.len()),
            final(self).last_request == old(self).last_request,
            final(self).backstep_run == old(self).backstep_run,
            match n {
                Next::Served(p) => {
                    &&& holds_picture(final(self).frames.entries(), at, scale, p@)
                    &&& final(self).cache_hits == counted(old(self).cache_hits + 1)
                },
                Next::Wait => {
                    &&& back && worker
                    &&& !final(self).frames.holds(at, scale)
                    &&& final(self).cache_hits == old(self).cache_hits
                },
                Next::Decode { start } => {
                    &&& !(back && worker)
                    &&& !final(self).frames.holds(at, scale)
                    &&& final(self).cache_hits == old(self).cache_hits
                    &&& start.0 == run_start(at, old(self).backstep_run, back)
                },
            },
    {
        self.adopt(scale, ready, true);
        match self.serve(at, scale) {
            Some(f) => Next::Served(f),
            None => if back && worker {
                Next::Wait
            } else {
                Next::Decode { start: self.start_of(at, back) }
            },
        }
    }

    /// Goes on after a worker was waited for, with what it brought: the
    /// picture, or the run that is decoded in its place.
    pub fn waited(&mut self, scale: PreviewScale, at: Frame, ready: Vec<VideoFrame>) -> (n: Next)
        requires
            old(self).wf(),
        ensures
            final(self).wf(),
            final(self).frames.entries() == with_frames(
                old(self).frames.entries(),
                old(self).frames.limit(),
                scale,
                ready@,
                ready@.len() as int,
            ),
            final(self).frames.limit() == old(self).frames.limit(),
            final(self).run_floor == floor_after(
                old(self).run_floor,
                ready@,
                ready@.len() as int,
            ),
            final(self).decodes == counted(old(self).decodes + ready@.len()),
            final(self).prefetched == old(self).prefetched,
            final(self).last_request == old(self).last_request,
            final(self).backstep_run == old(self).backstep_run,
            match n {
                Next::Served(p) => {
                    &&& holds_picture(final(self).frames.entries(), at, scale, p@)
                    &&& final(self).cache_hits == counted(old(self).cache_hits + 1)
                },
                Next::Wait => false,
                Next::Decode { start } => {
                    &&& !final(self).frames.holds(at, scale)
                    &&& final(self).cache_hits == old(self).cache_hits
                    &&& start.0 == run_start(at, old(self).backstep_run, true)
                },
            },
    {
        self.adopt(scale, ready, false);
        match self.serve(at, scale) {
            Some(f) => Next::Served(f),
            None => Next::Decode { start: self.start_of(at, true) },
        }
    }

    /// What to decode ahead of a walk that is at `at`, where `playing` says
    /// whether something plays.
    pub fn ahead(&self, at: Frame, playing: bool) -> (a: Ahead)
        ensures
            a == ahead_of(self.run_floor, self.backstep_run, at, playing),
    {
        if playing {
            return Ahead::Stop;
        }
        let floor: u64 = match self.run_floor {
            Some(f) => f,
            None => {
                return Ahead::Nothing;
            },
        };
        let run: u64 = if self.backstep_run < 1 {
            1
        } else {
            self.backstep_run
        };
        if floor == 0 || at.0 as u128 > floor as u128 + run as u128 {
            return Ahead::Nothing;
        }
        let end: u64 = floor - 1;
        Ahead::Decode { start: Frame(end.saturating_sub(run - 1)), end: Frame(end) }
    }

    /// Forgets everything: the timeline has changed, and every picture is one
    /// of a timeline that no longer exists.
    pub fn invalidate(&mut self)
        requires
            old(self).wf(),
        ensures
            final(self).wf(),
            final(self).frames.entries() == Seq::<(PreviewScale, VideoFrame)>::empty(),
            final(self).frames.limit() == old(self).frames.limit(),
            final(self).last_request is None,
            final(self).run_floor is None,
            final(self).backstep_run == old(self).backstep_run,
            final(self).decodes == old(self).decodes,
            final(self).cache_hits == old(self).cache_hits,
            final(self).prefetched == old(self).prefetched,
    {
        self.frames.clear();
        self.last_request = None;
        self.run_floor = None;
    }
}

/// A step backwards decodes the run that ends at its frame, as long as a run or
/// as far as the start; anything else decodes its own frame.
pub proof fn a_step_back_decodes_a_run(at: Frame, backstep: u64)
    requires
        backstep >= 1,
    ensures
        run_start(at, backstep, false) == at.0,
        0 <= run_start(at, backstep, true) <= at.0,
        at.0 >= backstep - 1 ==> at.0 - run_start(at, backstep, true) + 1 == backstep,
        at.0 < backstep - 1 ==> run_start(at, backstep, true) == 0,
{
}

/// Decoding ahead begins as soon as a walk backwards comes within a run of the
/// lowest picture, and takes the whole run below it, or as far as the start.
pub proof fn decoding_ahead_begins_in_time(floor: u64, backstep: u64, at: Frame)
    requires
        backstep >= 1,
        floor > 0,
        at.0 <= floor + backstep,
    ensures
        ahead_of(Some(floor), backstep, at, false) == (Ahead::Decode {
            start: Frame(
                if floor >= backstep {
                    (floor - backstep) as u64
                } else {
                    0
                },
            ),
            end: Frame((floor - 1) as u64),
        }),
        ahead_of(Some(floor), backstep, at, true) == Ahead::Stop,
        ahead_of(None, backstep, at, false) == Ahead::Nothing,
        ahead_of(Some(0), backstep, at, false) == Ahead::Nothing,
{
}

/// The floor is the lowest position there is.
pub proof fn the_floor_is_the_lowest(floor: Option<u64>, run: Seq<VideoFrame>, n: int)
    requires
        0 <= n <= run.len(),
    ensures
        match floor_after(floor, run, n) {
            Some(f) => {
                &&& floor matches Some(g) ==> f <= g
                &&& forall|i: int| 0 <= i < n ==> f <= (#[trigger] run[i]).position.0
                &&& floor == Some(f) || exists|i: int|
                    0 <= i < n && (#[trigger] run[i]).position.0 == f
            },
            None => floor is None && n == 0,
        },
    decreases n,
{
    if n > 0 {
        the_floor_is_the_lowest(floor, run, n - 1);
        assert(run[n - 1].position.0 == run[n - 1].position.0);
    }
}

/// The picture that is wanted of a run is one at its position, and there is
/// none only where the run has none.
pub proof fn the_wanted_picture_is_of_its_position(run: Seq<VideoFrame>, at: Frame, n: int)
    requires
        0 <= n <= run.len(),
    ensures
        match wanted_in(run, at, n) {
            Some(p) => p.position == at && exists|i: int|
                0 <= i < n && (#[trigger] run[i])@ == p,
            None => forall|i: int| 0 <= i < n ==> (#[trigger] run[i]).position != at,
        },
    decreases n,
{
    if n > 0 {
        the_wanted_picture_is_of_its_position(run, at, n - 1);
        assert(run[n - 1]@.position == run[n - 1].position);
    }
}

/// A picture that is taken in is there afterwards, unless it is larger than
/// everything that may be kept.
pub proof fn a_kept_picture_is_there(
    entries: Seq<(PreviewScale, VideoFrame)>,
    limit: int,
    scale: PreviewScale,
    frame: VideoFrame,
)
    requires
        0 <= limit,
        frame.rgba@.len() <= limit,
    ensures
        has_frame(with_frame(entries, limit, scale, frame), frame.position, scale),
{
    if !has_frame(entries, frame.position, scale) {
        let s = entries.push((scale, frame));
        crate::mlt::cache::eviction_takes_no_more_than_it_must(s, limit);
        let kept = within(s, limit);
        assert(is_frame(kept[kept.len() - 1], frame.position, scale));
    }
}

/// A run is kept picture by picture, in its order: keeping two runs one after
/// the other is keeping them as one.
pub proof fn runs_are_kept_one_after_the_other(
    entries: Seq<(PreviewScale, VideoFrame)>,
    limit: int,
    scale: PreviewScale,
    a: Seq<VideoFrame>,
    b: Seq<VideoFrame>,
    n: int,
)
    requires
        0 <= n <= b.len(),
    ensures
        with_frames(entries, limit, scale, a + b, a.len() + n) == with_frames(
            with_frames(entries, limit, scale, a, a.len() as int),
            limit,
            scale,
            b,
            n,
        ),
        with_frames(entries, limit, scale, a, 0) == entries,
        b.len() > 0 ==> with_frames(entries, limit, scale, b, 1) == with_frame(
            entries,
            limit,
            scale,
            b[0],
        ),
    decreases n,
{
    reveal_with_fuel(with_frames, 2);
    if n == 0 {
        lemma_frames_start(entries, limit, scale, a, b, a.len() as int);
    } else {
        runs_are_kept_one_after_the_other(entries, limit, scale, a, b, n - 1);
        assert((a + b)[a.len() + n - 1] == b[n - 1]);
    }
}

proof fn lemma_frames_start(
    entries: Seq<(PreviewScale, VideoFrame)>,
    limit: int,
    scale: PreviewScale,
    a: Seq<VideoFrame>,
    b: Seq<VideoFrame>,
    n: int,
)
    requires
        0 <= n <= a.len(),
    ensures
        with_frames(entries, limit, scale, a + b, n) == with_frames(entries, limit, scale, a, n),
    decreases n,
{
    if n > 0 {
        lemma_frames_start(entries, limit, scale, a, b, n - 1);
        assert((a + b)[n - 1] == a[n - 1]);
    }
}

} // verus!
