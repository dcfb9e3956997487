//! The hand-over between the event loop and the thread that encodes previews.
//!
//! One picture waits at a time. A picture that is handed over while an older
//! one still waits takes its place, so a slow terminal loses pictures and never
//! falls behind.
use vstd::prelude::*;

use crate::present::presenter::Presentation;
use crate::tui::preview::Band;
use crate::tui::preview::Layout;

verus! {

/// A picture to encode.
#[derive(Debug)]
pub struct Job {
    pub picture: Presentation,
    pub layout: Layout,
}

/// What is handed over: the picture that waits, the band that is ready, and
/// what was handed over last.
#[derive(Debug)]
pub struct Slot {
    submitted: Option<(u64, Layout)>,
    job: Option<Job>,
    done: Option<Band>,
    stop: bool,
}

/// The contents of a [`Slot`].
pub struct SlotView {
    pub submitted: Option<(u64, Layout)>,
    pub job: Option<Job>,
    pub done: Option<Band>,
    pub stop: bool,
}

impl View for Slot {
    type V = SlotView;

    closed spec fn view(&self) -> SlotView {
        SlotView {
            submitted: self.submitted,
            job: self.job,
            done: self.done,
            stop: self.stop,
        }
    }
}

/// Whether a picture is worth encoding: it has rows to go in, and is not the
/// one that was handed over last.
pub open spec fn is_news(s: SlotView, id: u64, layout: Layout) -> bool {
    layout.rows > 0 && s.submitted != Some((id, layout))
}

/// The slot after a picture was handed over.
pub open spec fn after_submit(s: SlotView, picture: Presentation, layout: Layout) -> SlotView {
    if is_news(s, picture.pixels_id, layout) {
        SlotView {
            submitted: Some((picture.pixels_id, layout)),
            job: Some(Job { picture, layout }),
            ..s
        }
    } else {
        s
    }
}

/// Of two pictures that are handed over with nothing in between, the newer one
/// is encoded.
pub proof fn the_newest_picture_is_kept(s: SlotView, a: Presentation, b: Presentation, layout: Layout)
    requires
        is_news(after_submit(s, a, layout), b.pixels_id, layout),
    ensures
        after_submit(after_submit(s, a, layout), b, layout).job == Some(Job { picture: b, layout }),
{
}

/// Handing over the same picture again changes nothing.
pub proof fn a_repeated_picture_is_not_encoded(
    s: SlotView,
    a: Presentation,
    b: Presentation,
    layout: Layout,
)
    requires
        a.pixels_id == b.pixels_id,
    ensures
        after_submit(after_submit(s, a, layout), b, layout) == after_submit(s, a, layout),
{
}

impl Slot {
    pub fn new() -> (s: Self)
        ensures
            s@ == (SlotView { submitted: None, job: None, done: None, stop: false }),
    {
        Slot { submitted: None, job: None, done: None, stop: false }
    }

    /// Whether a picture would be taken.
    pub fn wants(&self, pixels_id: u64, layout: Layout) -> (b: bool)
        ensures
            b == is_news(self@, pixels_id, layout),
    {
        if layout.rows == 0 {
            return false;
        }
        match self.submitted {
            Some((id, l)) => !(id == pixels_id && l == layout),
            None => true,
        }
    }

    /// Hands over a picture, and says whether it was taken.
    pub fn submit(&mut self, picture: Presentation, layout: Layout) -> (taken: bool)
        ensures
            final(self)@ == after_submit(old(self)@, picture, layout),
            taken == is_news(old(self)@, picture.pixels_id, layout),
    {
        if !self.wants(picture.pixels_id, layout) {
            return false;
        }
        self.submitted = Some((picture.pixels_id, layout));
        self.job = Some(Job { picture, layout });
        true
    }

    /// Takes the picture that waits.
    pub fn next_job(&mut self) -> (j: Option<Job>)
        ensures
            j == if old(self)@.stop {
                None
            } else {
                old(self)@.job
            },
            final(self)@ == if old(self)@.stop {
                old(self)@
            } else {
                SlotView { job: None, ..old(self)@ }
            },
    {
        if self.stop {
            None
        } else {
            self.job.take()
        }
    }

    /// Hands back an encoded picture. One that was never taken is lost.
    pub fn finish(&mut self, band: Band)
        ensures
            final(self)@ == (SlotView { done: Some(band), ..old(self)@ }),
    {
        self.done = Some(band);
    }

    /// Takes the newest encoded picture.
    pub fn take(&mut self) -> (b: Option<Band>)
        ensures
            b == old(self)@.done,
            final(self)@ == (SlotView { done: None, ..old(self)@ }),
    {
        self.done.take()
    }

    /// Asks the thread to end.
    pub fn stop(&mut self)
        ensures
            final(self)@ == (SlotView { stop: true, ..old(self)@ }),
    {
        self.stop = true;
    }

    pub fn is_stopped(&self) -> (b: bool)
        ensures
            b == self@.stop,
    {
        self.stop
    }
}

/// A picture that has rows to go in, and is another than the last or goes
/// elsewhere, is encoded next; one without rows never is.
pub proof fn a_new_picture_is_encoded_next(s: SlotView, a: Presentation, layout: Layout)
    ensures
        layout.rows > 0 && s.submitted is None ==> after_submit(s, a, layout).job == Some(
            Job { picture: a, layout },
        ),
        layout.rows > 0 && s.submitted is Some && (s.submitted->Some_0.0 != a.pixels_id
            || s.submitted->Some_0.1 != layout) ==> after_submit(s, a, layout).job == Some(
            Job { picture: a, layout },
        ),
        layout.rows == 0 ==> after_submit(s, a, layout) == s,
        after_submit(s, a, layout).done == s.done,
        after_submit(s, a, layout).stop == s.stop,
{
}

} // verus!
