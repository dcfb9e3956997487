//! The hand-over to the thread that decodes stills before they are asked for.
use vstd::prelude::*;

use crate::frames::Picture;
use crate::frames::VideoFrame;
use crate::frames::pictures;
use crate::model::Frame;

verus! {

/// What is being decoded ahead.
#[derive(Debug)]
pub struct PrefetchState {
    want: Option<(Frame, Frame)>,
    busy: Option<(Frame, Frame)>,
    ready: Vec<VideoFrame>,
    stop: bool,
}

/// The contents of a [`PrefetchState`].
pub struct PrefetchView {
    /// The run that is decoded next.
    pub want: Option<(Frame, Frame)>,
    /// The run that is being decoded.
    pub busy: Option<(Frame, Frame)>,
    /// What was decoded and not taken yet.
    pub ready: Seq<Picture>,
    pub stop: bool,
}

impl View for PrefetchState {
    type V = PrefetchView;

    closed spec fn view(&self) -> PrefetchView {
        PrefetchView {
            want: self.want,
            busy: self.busy,
            ready: pictures(self.ready@),
            stop: self.stop,
        }
    }
}

/// Whether a run holds a frame.
pub open spec fn spans(run: Option<(Frame, Frame)>, at: Frame) -> bool {
    run matches Some((s, e)) && s.0 <= at.0 <= e.0
}

fn covers(run: Option<(Frame, Frame)>, at: Frame) -> (b: bool)
    ensures
        b == spans(run, at),
{
    match run {
        Some((s, e)) => s.0 <= at.0 && at.0 <= e.0,
        None => false,
    }
}

impl PrefetchState {
    pub fn new() -> (p: Self)
        ensures
            p@ == (PrefetchView { want: None, busy: None, ready: Seq::empty(), stop: false }),
    {
        let p = PrefetchState { want: None, busy: None, ready: Vec::new(), stop: false };
        assert(p@.ready =~= Seq::<Picture>::empty());
        p
    }

    /// Asks for a run, unless one is waiting or being decoded: one run at a
    /// time keeps the thread one run ahead, and no further.
    pub fn request(&mut self, start: Frame, end: Frame) -> (taken: bool)
        ensures
            taken == (old(self)@.want is None && old(self)@.busy is None),
            final(self)@ == if taken {
                PrefetchView { want: Some((start, end)), ..old(self)@ }
            } else {
                old(self)@
            },
    {
        if self.want.is_some() || self.busy.is_some() {
            return false;
        }
        self.want = Some((start, end));
        true
    }

    /// Takes the run that waits, to decode it.
    pub fn begin(&mut self) -> (run: Option<(Frame, Frame)>)
        ensures
            run == if old(self)@.stop {
                None
            } else {
                old(self)@.want
            },
            final(self)@ == if run is Some {
                PrefetchView { want: None, busy: run, ..old(self)@ }
            } else {
                old(self)@
            },
    {
        if self.stop || self.want.is_none() {
            return None;
        }
        let run = self.want;
        self.want = None;
        self.busy = run;
        run
    }

    /// Takes what was decoded.
    pub fn finish(&mut self, decoded: Vec<VideoFrame>)
        ensures
            final(self)@ == (PrefetchView {
                busy: None,
                ready: old(self)@.ready + pictures(decoded@),
                ..old(self)@
            }),
    {
        let ghost before = self@.ready;
        let mut decoded = decoded;
        let ghost fresh = pictures(decoded@);
        self.ready.append(&mut decoded);
        self.busy = None;
        assert(self@.ready =~= before + fresh);
    }

    /// Takes what is ready.
    pub fn take_ready(&mut self) -> (v: Vec<VideoFrame>)
        ensures
            pictures(v@) == old(self)@.ready,
            final(self)@ == (PrefetchView { ready: Seq::empty(), ..old(self)@ }),
    {
        let mut v: Vec<VideoFrame> = Vec::new();
        std::mem::swap(&mut v, &mut self.ready);
        assert(self@.ready =~= Seq::<Picture>::empty());
        v
    }

    /// Whether a frame is on its way, so that it is worth waiting for.
    pub fn is_coming(&self, at: Frame) -> (b: bool)
        ensures
            b == (spans(self@.busy, at) || spans(self@.want, at)),
    {
        covers(self.busy, at) || covers(self.want, at)
    }

    /// Asks the thread to end.
    pub fn stop(&mut self)
        ensures
            final(self)@ == (PrefetchView { stop: true, want: None, ..old(self)@ }),
    {
        self.stop = true;
        self.want = None;
    }

    pub fn is_stopped(&self) -> (b: bool)
        ensures
            b == self@.stop,
    {
        self.stop
    }
}

/// A run holds its first frame, its last, and every frame between them.
pub proof fn a_run_holds_both_its_ends(start: Frame, end: Frame, at: Frame)
    requires
        start.0 <= end.0,
    ensures
        spans(Some((start, end)), start),
        spans(Some((start, end)), end),
        spans(Some((start, end)), at) == !(at.0 < start.0 || at.0 > end.0),
        !spans(None, at),
{
}

} // verus!
