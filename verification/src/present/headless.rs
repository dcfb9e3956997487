//! A presenter that records what it would have shown.
use vstd::prelude::*;

use crate::frames::VideoFrame;
use crate::model::Fps;
use crate::model::Frame;
use crate::model::Resolution;
use crate::present::error::PresentError;
use crate::present::pacing::Pace;
use crate::present::pacing::PacerView;
use crate::present::pacing::PreviewSource;
use crate::present::pacing::Pulled;
use crate::present::pacing::passes_through;
use crate::present::pacing::pulled_view;
use crate::present::presenter::Host;
use crate::present::presenter::Presentation;
use crate::present::presenter::Presenter;
use crate::present::presenter::frame_outcome;
use crate::present::presenter::initial;
use crate::present::presenter::is_drawable;
use crate::present::presenter::present_outcome;

verus! {

/// Records every presentation instead of showing it.
#[derive(Debug)]
pub struct HeadlessPresenter {
    presenter: Presenter,
    frames: Vec<Presentation>,
    /// The most presentations that are kept.
    capacity: usize,
}

/// A record with one more entry; the oldest goes when it is full.
pub open spec fn recorded(frames: Seq<Presentation>, p: Presentation, capacity: int) -> Seq<
    Presentation,
> {
    if frames.len() == capacity && frames.len() > 0 {
        frames.drop_first().push(p)
    } else {
        frames.push(p)
    }
}

/// A presentation is recorded, and a failure is passed on.
pub open spec fn record_outcome(
    before: Seq<Presentation>,
    presented: Result<Presentation, PresentError>,
    after: Seq<Presentation>,
    result: Result<(), PresentError>,
) -> bool {
    match presented {
        Ok(p) => result is Ok && after == recorded(before, p, 4096),
        Err(e) => result == Err::<(), PresentError>(e) && after == before,
    }
}

impl HeadlessPresenter {
    pub closed spec fn inner(self) -> Presenter {
        self.presenter
    }

    pub closed spec fn record_view(self) -> Seq<Presentation> {
        self.frames@
    }

    pub closed spec fn wf(self) -> bool {
        self.presenter.wf() && self.capacity == 4096 && self.frames@.len() <= 4096
    }

    /// A well-formed recorder keeps at most 4096 presentations.
    pub proof fn the_record_is_bounded(self)
        requires
            self.wf(),
        ensures
            self.record_view().len() <= 4096,
            self.inner().wf(),
    {
    }

    pub fn new(surface: Resolution, fps: Fps) -> (h: Self)
        ensures
            h.wf(),
            h.record_view().len() == 0,
            h.inner().view() == initial(Host::Embedded, surface, fps),
    {
        HeadlessPresenter::with_host(Host::Embedded, surface, fps)
    }

    pub fn with_host(host: Host, surface: Resolution, fps: Fps) -> (h: Self)
        ensures
            h.wf(),
            h.record_view().len() == 0,
            h.inner().view() == initial(host, surface, fps),
    {
        HeadlessPresenter {
            presenter: Presenter::new(host, surface, fps),
            frames: Vec::new(),
            capacity: 4096,
        }
    }

    pub fn presenter(&self) -> (p: &Presenter)
        ensures
            *p == self.inner(),
    {
        &self.presenter
    }

    /// The presenter, to be changed in place.
    pub fn presenter_mut(&mut self) -> (p: &mut Presenter)
        requires
            old(self).wf(),
        ensures
            *p == old(self).inner(),
            final(self).inner() == *final(p),
            final(self).record_view() == old(self).record_view(),
            final(p).wf() ==> final(self).wf(),
    {
        &mut self.presenter
    }

    fn record(&mut self, p: Presentation)
        requires
            old(self).wf(),
        ensures
            final(self).wf(),
            final(self).inner() == old(self).inner(),
            final(self).record_view() == recorded(old(self).record_view(), p, 4096),
    {
        if self.frames.len() == self.capacity {
            let ghost before = self.frames@;
            self.frames.remove(0);
            assert(self.frames@ =~= before.drop_first());
        }
        self.frames.push(p);
    }

    /// One tick of playback, recorded where it succeeds.
    pub fn tick<S: PreviewSource>(&mut self, backend: &mut S) -> (result: Result<(), PresentError>)
        requires
            old(self).wf(),
        ensures
            final(self).wf(),
            exists|
                clock: Option<Frame>,
                answers: Seq<Pulled>,
                states: Seq<S>,
                paced: Result<Pace, PresentError>,
                pacer: PacerView,
                presented: Result<Presentation, PresentError>,
            |
                {
                    &&& #[trigger] present_outcome(
                        old(self).inner().view(),
                        clock,
                        answers,
                        paced,
                        pacer,
                        final(self).inner().view(),
                        presented,
                    )
                    &&& record_outcome(
                        old(self).record_view(),
                        presented,
                        final(self).record_view(),
                        result,
                    )
                    &&& call_ensures(S::audio_clock_position, (&*old(backend),), clock)
                    &&& #[trigger] passes_through(states, answers)
                    &&& states.first() == *old(backend)
                    &&& states.last() == *final(backend)
                    &&& forall|i: int|
                        0 <= i < answers.len() ==> exists|
                            asked: &mut S,
                            r: Result<Option<VideoFrame>, String>,
                        |
                            {
                                &&& #[trigger] call_ensures(S::next_preview_frame, (asked,), r)
                                &&& *asked == states[i]
                                &&& *final(asked) == states[i + 1]
                                &&& pulled_view(r) == #[trigger] answers[i]
                            }
                },
    {
        let presented = self.presenter.present(backend);
        let ghost told = presented;
        let result = match presented {
            Ok(p) => {
                self.record(p);
                Ok(())
            },
            Err(e) => Err(e),
        };
        assert(record_outcome(old(self).record_view(), told, self.record_view(), result));
        result
    }

    /// Shows one frame, recorded where it succeeds.
    pub fn show(&mut self, frame: VideoFrame) -> (result: Result<(), PresentError>)
        requires
            old(self).wf(),
        ensures
            final(self).wf(),
            result is Ok <==> is_drawable(frame),
            exists|presented: Result<Presentation, PresentError>|
                #[trigger] frame_outcome(
                    old(self).inner().view(),
                    frame,
                    final(self).inner().view(),
                    presented,
                ) && record_outcome(
                    old(self).record_view(),
                    presented,
                    final(self).record_view(),
                    result,
                ),
    {
        let presented = self.presenter.present_frame(frame);
        let ghost told = presented;
        let result = match presented {
            Ok(p) => {
                self.record(p);
                Ok(())
            },
            Err(e) => Err(e),
        };
        assert(record_outcome(old(self).record_view(), told, self.record_view(), result));
        result
    }

    pub fn frames(&self) -> (v: &[Presentation])
        ensures
            v@ == self.record_view(),
    {
        self.frames.as_slice()
    }

    pub fn last(&self) -> (p: Option<&Presentation>)
        ensures
            match p {
                Some(p) => self.record_view().len() > 0 && *p == self.record_view().last(),
                None => self.record_view().len() == 0,
            },
    {
        if self.frames.len() == 0 {
            None
        } else {
            Some(&self.frames[self.frames.len() - 1])
        }
    }

    /// The positions that were shown, in order.
    pub fn positions(&self) -> (v: Vec<Option<Frame>>)
        ensures
            v@ == Seq::new(
                self.record_view().len(),
                |i: int| self.record_view()[i].position,
            ),
    {
        let mut v: Vec<Option<Frame>> = Vec::new();
        let mut i: usize = 0;
        while i < self.frames.len()
            invariant
                i <= self.frames@.len(),
                v@.len() == i,
                forall|k: int| 0 <= k < i ==> #[trigger] v@[k] == self.frames@[k].position,
            decreases self.frames@.len() - i,
        {
            v.push(self.frames[i].position);
            i = i + 1;
        }
        assert(v@ =~= Seq::new(
            self.record_view().len(),
            |i: int| self.record_view()[i].position,
        ));
        v
    }
}

/// What was shown last is recorded last, behind what was there in its order;
/// only the oldest goes, and only from a full record.
pub proof fn the_record_is_in_order(frames: Seq<Presentation>, p: Presentation, capacity: int)
    requires
        0 < capacity,
        frames.len() <= capacity,
    ensures
        recorded(frames, p, capacity).last() == p,
        frames.len() < capacity ==> recorded(frames, p, capacity).drop_last() == frames,
        frames.len() == capacity ==> recorded(frames, p, capacity).drop_last()
            == frames.drop_first(),
        recorded(frames, p, capacity).len() <= capacity,
{
    assert(recorded(frames, p, capacity).drop_last() =~= if frames.len() < capacity {
        frames
    } else {
        frames.drop_first()
    });
}

/// A picture that is shown is the newest of the record; one that fails leaves
/// it, and the failure is passed on.
pub proof fn a_shown_picture_is_recorded(
    before: Seq<Presentation>,
    presented: Result<Presentation, PresentError>,
    after: Seq<Presentation>,
    result: Result<(), PresentError>,
)
    requires
        record_outcome(before, presented, after, result),
    ensures
        presented is Ok ==> result is Ok && after.len() > 0 && after.last() == presented->Ok_0,
        presented is Err ==> after == before && result is Err && result->Err_0 == presented->Err_0,
        before.len() < 4096 && presented is Ok ==> after.drop_last() == before,
{
    if before.len() < 4096 && presented is Ok {
        assert(after.drop_last() =~= before);
    }
}

} // verus!
