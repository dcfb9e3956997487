//! Decoding a run of frames in one pass: one seek, then frame after frame.
use vstd::prelude::*;

use crate::frames::Picture;
use crate::frames::VideoFrame;
use crate::frames::pictures;
use crate::model::Frame;
use crate::model::Resolution;

verus! {

/// What came of a frame.
#[derive(Debug)]
pub enum Pulled {
    Picture { width: u32, height: u32, rgba: Vec<u8> },
    /// The frame is there, but not its picture.
    NoPicture,
    /// There is no frame.
    NoFrame,
}

/// The bytes of an opaque black picture.
pub open spec fn black_bytes(size: Resolution) -> Seq<u8> {
    Seq::new(
        (4 * (size.width * size.height)) as nat,
        |i: int|
            if i % 4 == 3 {
                255u8
            } else {
                0u8
            },
    )
}

/// A black picture.
pub fn black(at: Frame, size: Resolution) -> (f: VideoFrame)
    ensures
        f@ == (Picture {
            position: at,
            width: size.width,
            height: size.height,
            rgba: black_bytes(size),
        }),
{
    let w: u32 = size.width;
    let h: u32 = size.height;
    assert(0 <= w * h <= 0xffff_ffff * 0xffff_ffff) by (nonlinear_arith)
        requires
            0 <= w <= 0xffff_ffff,
            0 <= h <= 0xffff_ffff,
    ;
    let total: u64 = w as u64 * h as u64;
    let mut rgba: Vec<u8> = Vec::new();
    let mut i: u64 = 0;
    while i < total
        invariant
            i <= total == size.width * size.height,
            rgba@ =~= black_bytes(size).take(4 * i),
        decreases total - i,
    {
        rgba.push(0);
        rgba.push(0);
        rgba.push(0);
        rgba.push(255);
        i = i + 1;
    }
    assert(rgba@ =~= black_bytes(size));
    VideoFrame { position: at, width: w, height: h, rgba }
}

/// A run that is being decoded.
#[derive(Debug)]
pub struct Run {
    next: u64,
    target: u64,
    size: Resolution,
    frames: Vec<VideoFrame>,
    /// Whether nothing more is decoded.
    over: bool,
    /// Whether the frame that was asked for is missing.
    failed: bool,
}

/// The contents of a [`Run`].
pub struct RunView {
    pub next: u64,
    pub target: u64,
    pub size: Resolution,
    pub frames: Seq<Picture>,
    pub over: bool,
    pub failed: bool,
}

impl View for Run {
    type V = RunView;

    closed spec fn view(&self) -> RunView {
        RunView {
            next: self.next,
            target: self.target,
            size: self.size,
            frames: pictures(self.frames@),
            over: self.over,
            failed: self.failed,
        }
    }
}

/// The picture of a frame: one that cannot be made is black.
pub open spec fn shown(r: RunView, pulled: Pulled) -> Picture {
    match pulled {
        Pulled::Picture { width, height, rgba } => Picture {
            position: Frame(r.next),
            width,
            height,
            rgba: rgba@,
        },
        _ => Picture {
            position: Frame(r.next),
            width: r.size.width,
            height: r.size.height,
            rgba: black_bytes(r.size),
        },
    }
}

/// The run after a frame. A frame that is not there ends the run; only the
/// frame that was asked for is missed.
pub open spec fn after_pull(r: RunView, pulled: Pulled) -> RunView {
    if r.over {
        r
    } else if pulled is NoFrame {
        RunView { over: true, failed: r.next == r.target, ..r }
    } else {
        RunView {
            frames: r.frames.push(shown(r, pulled)),
            over: r.next >= r.target,
            next: if r.next >= r.target {
                r.next
            } else {
                (r.next + 1) as u64
            },
            ..r
        }
    }
}

impl Run {
    /// A run from `start` up to `target`, both included.
    pub fn new(start: Frame, target: Frame, size: Resolution) -> (r: Self)
        ensures
            r@ == (RunView {
                next: start.0,
                target: target.0,
                size,
                frames: Seq::empty(),
                over: false,
                failed: false,
            }),
    {
        let r = Run {
            next: start.0,
            target: target.0,
            size,
            frames: Vec::new(),
            over: false,
            failed: false,
        };
        assert(r@.frames =~= Seq::<Picture>::empty());
        r
    }

    /// The frame that is pulled next.
    pub fn wants(&self) -> (f: Option<Frame>)
        ensures
            f == if self@.over {
                None
            } else {
                Some(Frame(self@.next))
            },
    {
        if self.over {
            None
        } else {
            Some(Frame(self.next))
        }
    }

    /// Takes what came of a frame.
    pub fn take(&mut self, pulled: Pulled)
        ensures
            final(self)@ == after_pull(old(self)@, pulled),
    {
        if self.over {
            return;
        }
        let ghost before = self@;
        let frame = match pulled {
            Pulled::Picture { width, height, rgba } => VideoFrame {
                position: Frame(self.next),
                width,
                height,
                rgba,
            },
            Pulled::NoPicture => black(Frame(self.next), self.size),
            Pulled::NoFrame => {
                self.over = true;
                self.failed = self.next == self.target;
                return;
            },
        };
        self.frames.push(frame);
        assert(pictures(self.frames@) =~= before.frames.push(frame@));
        if self.next >= self.target {
            self.over = true;
        } else {
            self.next = self.next + 1;
        }
    }

    /// The pictures of the run; `None` where the frame that was asked for is
    /// missing.
    pub fn finish(self) -> (v: Option<Vec<VideoFrame>>)
        ensures
            match v {
                Some(f) => !self@.failed && pictures(f@) == self@.frames,
                None => self@.failed,
            },
    {
        if self.failed {
            None
        } else {
            Some(self.frames)
        }
    }
}

/// The run after a list of frames.
pub open spec fn after_pulls(r: RunView, pulls: Seq<Pulled>, n: int) -> RunView
    decreases n,
{
    if n <= 0 {
        r
    } else {
        after_pull(after_pulls(r, pulls, n - 1), pulls[n - 1])
    }
}

/// Where every frame is there, a run has a picture for each position, in
/// order, and is over exactly at the one that was asked for.
pub proof fn a_run_is_contiguous(r: RunView, start: u64, pulls: Seq<Pulled>, n: int)
    requires
        r.next == start,
        r.frames.len() == 0,
        !r.over,
        !r.failed,
        start <= r.target,
        0 <= n <= pulls.len(),
        n <= r.target - start + 1,
        forall|i: int| 0 <= i < n ==> !((#[trigger] pulls[i]) is NoFrame),
    ensures
        ({
            let end = after_pulls(r, pulls, n);
            &&& end.frames.len() == n
            &&& forall|i: int| 0 <= i < n ==> (#[trigger] end.frames[i]).position.0 == start + i
            &&& end.over == (n == r.target - start + 1)
            &&& !end.failed
            &&& !end.over ==> end.next == start + n
            &&& end.target == r.target
        }),
    decreases n,
{
    if n > 0 {
        a_run_is_contiguous(r, start, pulls, n - 1);
        assert(!(pulls[n - 1] is NoFrame));
    }
}

/// A run keeps what was decoded: a picture at its position, with its size and
/// its bytes, and black of the size of the timeline where there is a frame and
/// no picture.
pub proof fn a_run_keeps_what_was_decoded(r: RunView, pulled: Pulled)
    requires
        !r.over,
        !(pulled is NoFrame),
    ensures
        ({
            let after = after_pull(r, pulled);
            let kept = after.frames.last();
            &&& after.frames.drop_last() == r.frames
            &&& kept.position.0 == r.next
            &&& pulled matches Pulled::Picture { width, height, rgba } ==> kept.width == width
                && kept.height == height && kept.rgba == rgba@
            &&& pulled is NoPicture ==> {
                &&& kept.width == r.size.width
                &&& kept.height == r.size.height
                &&& kept.rgba.len() == 4 * (r.size.width * r.size.height)
                &&& forall|i: int|
                    0 <= i < kept.rgba.len() ==> #[trigger] kept.rgba[i] == if i % 4 == 3 {
                        255u8
                    } else {
                        0u8
                    }
            }
        }),
{
    assert(after_pull(r, pulled).frames.drop_last() =~= r.frames);
    assert(0 <= r.size.width * r.size.height) by (nonlinear_arith)
        requires
            0 <= r.size.width,
            0 <= r.size.height,
    ;
}

/// A frame that is not there ends a run with what it has; the run fails only
/// where that is the frame that was asked for. A run that is over takes
/// nothing more.
pub proof fn a_missing_frame_ends_a_run(r: RunView, pulled: Pulled)
    ensures
        r.over ==> after_pull(r, pulled) == r,
        !r.over && pulled is NoFrame ==> {
            let after = after_pull(r, pulled);
            &&& after.over
            &&& after.frames == r.frames
            &&& after.failed == (r.next == r.target)
        },
{
}

} // verus!
