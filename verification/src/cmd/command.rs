//! Edits that can be undone exactly.
//!
//! A step cuts a clip in two or heals such a cut. Running a step gives the
//! step as it was executed, with the id it used, and the step that undoes it.
use vstd::prelude::*;
use vstd::string::*;

use crate::cmd::error::CmdError;
use crate::cmd::error::CmdErrorView;
use crate::cmd::error::CoreError;
use crate::model::Clip;
use crate::model::ClipId;
use crate::model::ClipView;
use crate::model::Frame;
use crate::model::MediaRef;
use crate::model::Timeline;
use crate::model::TimelineState;
use crate::model::TimelineView;
use crate::model::TrackId;
use crate::model::TrackView;
use crate::model::clips_view;
use crate::model::clips_wf;
use crate::text::decimal;
use crate::text::push_decimal;

verus! {

/// One change of the timeline.
#[derive(Clone, Copy, Debug, PartialEq, Eq, Structural)]
pub enum Step {
    /// Cuts the clip that has `frame` strictly inside it. Without an id, a new
    /// one is made.
    Split { track: TrackId, frame: Frame, new_id: Option<ClipId> },
    /// Heals the cut at `frame` between two clips that are one.
    Join { track: TrackId, frame: Frame },
}

/// A command the user gives: a step, or several that happen together.
#[derive(Debug, PartialEq, Eq)]
pub enum EditCommand {
    Split { track: TrackId, frame: Frame, new_id: Option<ClipId> },
    Join { track: TrackId, frame: Frame },
    Sequence(Vec<Step>),
}

impl View for EditCommand {
    type V = Seq<Step>;

    /// The steps of a command.
    open spec fn view(&self) -> Seq<Step> {
        match self {
            EditCommand::Split { track, frame, new_id } => seq![
                Step::Split { track: *track, frame: *frame, new_id: *new_id },
            ],
            EditCommand::Join { track, frame } => seq![
                Step::Join { track: *track, frame: *frame },
            ],
            EditCommand::Sequence(steps) => steps@,
        }
    }
}

fn copy_steps(steps: &Vec<Step>) -> (c: Vec<Step>)
    ensures
        c@ == steps@,
{
    let mut c: Vec<Step> = Vec::new();
    let mut i: usize = 0;
    while i < steps.len()
        invariant
            i <= steps@.len(),
            c@ == steps@.take(i as int),
        decreases steps@.len() - i,
    {
        c.push(steps[i]);
        i = i + 1;
        assert(c@ =~= steps@.take(i as int));
    }
    assert(c@ =~= steps@);
    c
}

impl Clone for EditCommand {
    fn clone(&self) -> (c: Self)
        ensures
            c@ == self@,
            description(c) == description(*self),
            repeated(c) == repeated(*self),
    {
        match self {
            EditCommand::Split { track, frame, new_id } => EditCommand::Split {
                track: *track,
                frame: *frame,
                new_id: *new_id,
            },
            EditCommand::Join { track, frame } => EditCommand::Join {
                track: *track,
                frame: *frame,
            },
            EditCommand::Sequence(steps) => EditCommand::Sequence(copy_steps(steps)),
        }
    }
}

/// What a command is called in a list of changes.
pub open spec fn description(c: EditCommand) -> Seq<char> {
    match c {
        EditCommand::Split { track, frame, .. } => "split at "@ + decimal(frame.0 as nat)
            + " on track "@ + decimal(track.0 as nat),
        EditCommand::Join { track, frame } => "join at "@ + decimal(frame.0 as nat)
            + " on track "@ + decimal(track.0 as nat),
        EditCommand::Sequence(steps) => decimal(steps@.len()) + " steps"@,
    }
}

/// A step in the form in which it can be run again: it makes its own id.
pub open spec fn repeated_step(s: Step) -> Step {
    match s {
        Step::Split { track, frame, new_id } => Step::Split { track, frame, new_id: None },
        Step::Join { track, frame } => s,
    }
}

/// The steps of a command in the form in which it can be run again.
pub open spec fn repeated(c: EditCommand) -> Seq<Step> {
    Seq::new(c@.len(), |i: int| repeated_step(c@[i]))
}

/// The position of the track `id`; the last one, should there be several.
pub open spec fn position_of(tracks: Seq<TrackView>, id: TrackId) -> Option<int>
    decreases tracks.len(),
{
    if tracks.len() == 0 {
        None
    } else if tracks.last().id == id {
        Some(tracks.len() - 1)
    } else {
        position_of(tracks.drop_last(), id)
    }
}

/// Whether `frame` lies strictly inside a clip.
pub open spec fn is_inside(c: ClipView, frame: Frame) -> bool {
    c.start.0 < frame.0 < c.end()
}

/// The clip that has `frame` strictly inside it.
pub open spec fn inside_at(clips: Seq<ClipView>, frame: Frame) -> Option<int>
    decreases clips.len(),
{
    if clips.len() == 0 {
        None
    } else if is_inside(clips.last(), frame) {
        Some(clips.len() - 1)
    } else {
        inside_at(clips.drop_last(), frame)
    }
}

/// The part of a clip before `frame`.
pub open spec fn left_part(c: ClipView, frame: Frame) -> ClipView {
    ClipView { duration: Frame((frame.0 - c.start.0) as u64), ..c }
}

/// The part of a clip from `frame` on.
pub open spec fn right_part(c: ClipView, frame: Frame, id: ClipId) -> ClipView {
    ClipView {
        id,
        start: frame,
        duration: Frame((c.end() - frame.0) as u64),
        source_in: Frame((c.source_in.0 + (frame.0 - c.start.0)) as u64),
        transition_in: None,
        ..c
    }
}

/// Two clips that are one clip with a cut in it.
pub open spec fn are_one(l: ClipView, r: ClipView) -> bool {
    &&& l.end() == r.start.0
    &&& l.source_out() == r.source_in.0
    &&& l.label == r.label
    &&& l.media == r.media
    &&& l.text == r.text
    &&& l.props == r.props
    &&& l.group == r.group
    &&& r.transition_in is None
    &&& l.start.0 + l.duration.0 + r.duration.0 <= u64::MAX
    &&& l.source_in.0 + l.duration.0 + r.duration.0 <= u64::MAX
}

/// The clip that two clips are.
pub open spec fn joined(l: ClipView, r: ClipView) -> ClipView {
    ClipView { duration: Frame((l.duration.0 + r.duration.0) as u64), ..l }
}

/// The first of the two clips that meet at `frame` and are one.
pub open spec fn cut_at(clips: Seq<ClipView>, frame: Frame, n: nat) -> Option<int>
    decreases n,
{
    if n == 0 {
        None
    } else if n < clips.len() && clips[n - 1].end() == frame.0 && are_one(clips[n - 1], clips[n as int]) {
        Some(n - 1)
    } else {
        cut_at(clips, frame, (n - 1) as nat)
    }
}

/// A timeline with the clips of one track replaced.
pub open spec fn with_clips(t: TimelineView, track: int, clips: Seq<ClipView>) -> TimelineView {
    TimelineView {
        tracks: t.tracks.update(track, TrackView { clips, ..t.tracks[track] }),
        ..t
    }
}

/// What a step does.
pub struct StepEffect {
    pub after: TimelineState,
    /// The step as it was executed.
    pub applied: Step,
    /// The step that undoes it.
    pub inverse: Step,
}

/// Clips with clip `k` cut at `frame`.
pub open spec fn split_clips(clips: Seq<ClipView>, k: int, frame: Frame, id: ClipId) -> Seq<
    ClipView,
> {
    clips.update(k, left_part(clips[k], frame)).insert(k + 1, right_part(clips[k], frame, id))
}

/// Clips with the cut after clip `k` healed.
pub open spec fn join_clips(clips: Seq<ClipView>, k: int) -> Seq<ClipView> {
    clips.update(k, joined(clips[k], clips[k + 1])).remove(k + 1)
}

/// What a step does to a timeline, or why it is rejected.
pub open spec fn run_step(t: TimelineState, s: Step) -> Result<StepEffect, CoreError> {
    match s {
        Step::Split { track, frame, new_id } => match position_of(t.content.tracks, track) {
            None => Err(CoreError::NoSuchTrack(track)),
            Some(i) => match inside_at(t.content.tracks[i].clips, frame) {
                None => Err(CoreError::NothingToSplit(frame)),
                Some(k) => {
                    let minted = new_id is None;
                    let id = match new_id {
                        Some(id) => id,
                        None => ClipId(t.cursor),
                    };
                    if minted && t.cursor == u64::MAX {
                        Err(CoreError::OutOfIds)
                    } else {
                        Ok(
                            StepEffect {
                                after: TimelineState {
                                    content: with_clips(
                                        t.content,
                                        i,
                                        split_clips(t.content.tracks[i].clips, k, frame, id),
                                    ),
                                    cursor: if minted { (t.cursor + 1) as u64 } else { t.cursor },
                                },
                                applied: Step::Split { track, frame, new_id: Some(id) },
                                inverse: Step::Join { track, frame },
                            },
                        )
                    }
                },
            },
        },
        Step::Join { track, frame } => match position_of(t.content.tracks, track) {
            None => Err(CoreError::NoSuchTrack(track)),
            Some(i) => {
                let clips = t.content.tracks[i].clips;
                match cut_at(clips, frame, clips.len()) {
                    None => Err(CoreError::NothingToJoin(frame)),
                    Some(k) => Ok(
                        StepEffect {
                            after: TimelineState {
                                content: with_clips(t.content, i, join_clips(clips, k)),
                                cursor: t.cursor,
                            },
                            applied: s,
                            inverse: Step::Split { track, frame, new_id: Some(clips[k + 1].id) },
                        },
                    ),
                }
            },
        },
    }
}

/// What a list of steps does.
pub struct Effect {
    pub after: TimelineState,
    pub applied: Seq<Step>,
    pub inverse: Seq<Step>,
}

/// What a list of steps does: all of them, or nothing. The inverse runs
/// backwards.
pub open spec fn run(t: TimelineState, steps: Seq<Step>) -> Result<Effect, CoreError>
    decreases steps.len(),
{
    if steps.len() == 0 {
        Ok(Effect { after: t, applied: Seq::empty(), inverse: Seq::empty() })
    } else {
        match run(t, steps.drop_last()) {
            Err(e) => Err(e),
            Ok(before) => match run_step(before.after, steps.last()) {
                Err(e) => Err(e),
                Ok(last) => Ok(
                    Effect {
                        after: last.after,
                        applied: before.applied.push(last.applied),
                        inverse: seq![last.inverse] + before.inverse,
                    },
                ),
            },
        }
    }
}

proof fn lemma_position(tracks: Seq<TrackView>, id: TrackId)
    ensures
        match position_of(tracks, id) {
            Some(i) => 0 <= i < tracks.len() && tracks[i].id == id,
            None => forall|i: int| 0 <= i < tracks.len() ==> (#[trigger] tracks[i]).id != id,
        },
    decreases tracks.len(),
{
    if tracks.len() > 0 && tracks.last().id != id {
        lemma_position(tracks.drop_last(), id);
        assert forall|i: int| 0 <= i < tracks.len() && position_of(tracks, id) is None implies (
        #[trigger] tracks[i]).id != id by {
            if i < tracks.len() - 1 {
                assert(tracks.drop_last()[i].id != id);
            }
        }
    }
}

proof fn lemma_position_kept(a: Seq<TrackView>, b: Seq<TrackView>, id: TrackId)
    requires
        a.len() == b.len(),
        forall|i: int| 0 <= i < a.len() ==> (#[trigger] a[i]).id == b[i].id,
    ensures
        position_of(a, id) == position_of(b, id),
    decreases a.len(),
{
    if a.len() > 0 {
        assert(a[a.len() - 1].id == b[a.len() - 1].id);
        assert forall|i: int| 0 <= i < a.drop_last().len() implies (
        #[trigger] a.drop_last()[i]).id == b.drop_last()[i].id by {
            assert(a[i].id == b[i].id);
        }
        lemma_position_kept(a.drop_last(), b.drop_last(), id);
    }
}

proof fn lemma_inside(clips: Seq<ClipView>, frame: Frame)
    ensures
        match inside_at(clips, frame) {
            Some(k) => 0 <= k < clips.len() && is_inside(clips[k], frame),
            None => forall|k: int| 0 <= k < clips.len() ==> !is_inside(#[trigger] clips[k], frame),
        },
    decreases clips.len(),
{
    if clips.len() > 0 && !is_inside(clips.last(), frame) {
        lemma_inside(clips.drop_last(), frame);
        assert forall|k: int| 0 <= k < clips.len() && inside_at(clips, frame) is None implies !is_inside(
            #[trigger] clips[k],
            frame,
        ) by {
            if k < clips.len() - 1 {
                assert(!is_inside(clips.drop_last()[k], frame));
            }
        }
    }
}

proof fn lemma_inside_unique(clips: Seq<ClipView>, frame: Frame, k: int)
    requires
        clips_wf(clips),
        0 <= k < clips.len(),
        is_inside(clips[k], frame),
    ensures
        inside_at(clips, frame) == Some(k),
{
    lemma_inside(clips, frame);
    let j = inside_at(clips, frame);
    if j is Some {
        if j->Some_0 < k {
            assert(clips[j->Some_0].end() <= clips[k].start.0);
        } else if k < j->Some_0 {
            assert(clips[k].end() <= clips[j->Some_0].start.0);
        }
    }
}

proof fn lemma_cut(clips: Seq<ClipView>, frame: Frame, n: nat)
    requires
        n <= clips.len(),
    ensures
        match cut_at(clips, frame, n) {
            Some(k) => 0 <= k < n && k + 1 < clips.len() && clips[k].end() == frame.0 && are_one(
                clips[k],
                clips[k + 1],
            ),
            None => forall|k: int|
                0 <= k < n && k + 1 < clips.len() && (#[trigger] clips[k]).end() == frame.0
                    ==> !are_one(clips[k], clips[k + 1]),
        },
    decreases n,
{
    if n > 0 {
        lemma_cut(clips, frame, (n - 1) as nat);
    }
}

proof fn lemma_cut_unique(clips: Seq<ClipView>, frame: Frame, k: int)
    requires
        clips_wf(clips),
        0 <= k,
        k + 1 < clips.len(),
        clips[k].end() == frame.0,
        are_one(clips[k], clips[k + 1]),
    ensures
        cut_at(clips, frame, clips.len()) == Some(k),
{
    lemma_cut(clips, frame, clips.len());
    let j = cut_at(clips, frame, clips.len());
    if j is Some {
        let j = j->Some_0;
        assert(clips[k].wf());
        assert(clips[j].wf());
        if j < k {
            assert(clips[j].end() <= clips[k].start.0);
        } else if k < j {
            assert(clips[k].end() <= clips[j].start.0);
        }
    }
}

proof fn lemma_split_wf(clips: Seq<ClipView>, k: int, frame: Frame, id: ClipId)
    requires
        clips_wf(clips),
        0 <= k < clips.len(),
        is_inside(clips[k], frame),
    ensures
        clips_wf(split_clips(clips, k, frame, id)),
        are_one(left_part(clips[k], frame), right_part(clips[k], frame, id)),
        split_clips(clips, k, frame, id)[k] == left_part(clips[k], frame),
        split_clips(clips, k, frame, id)[k + 1] == right_part(clips[k], frame, id),
        join_clips(split_clips(clips, k, frame, id), k) == clips,
{
    let c = clips[k];
    assert(c.wf());
    let l = left_part(c, frame);
    let r = right_part(c, frame, id);
    let after = split_clips(clips, k, frame, id);
    assert(l.wf() && r.wf());
    assert forall|i: int| 0 <= i < after.len() implies (#[trigger] after[i]).wf() by {
        if i < k {
            assert(after[i] == clips[i]);
            assert(clips[i].wf());
        } else if i > k + 1 {
            assert(after[i] == clips[i - 1]);
            assert(clips[i - 1].wf());
        }
    }
    assert forall|i: int, j: int| 0 <= i < j < after.len() implies (#[trigger] after[i]).end() <= (
    #[trigger] after[j]).start.0 by {
        let a = if i <= k { i } else { i - 1 };
        let b = if j <= k { j } else { j - 1 };
        if a != b {
            assert(clips[a].end() <= clips[b].start.0);
        }
    }
    assert(joined(l, r) == c);
    assert(join_clips(after, k) =~= clips);
}

proof fn lemma_join_wf(clips: Seq<ClipView>, k: int)
    requires
        clips_wf(clips),
        0 <= k,
        k + 1 < clips.len(),
        are_one(clips[k], clips[k + 1]),
    ensures
        clips_wf(join_clips(clips, k)),
        ({
            let frame = Frame(clips[k].end() as u64);
            &&& is_inside(join_clips(clips, k)[k], frame)
            &&& split_clips(join_clips(clips, k), k, frame, clips[k + 1].id) == clips
        }),
{
    let l = clips[k];
    let r = clips[k + 1];
    assert(l.wf() && r.wf());
    let after = join_clips(clips, k);
    let whole = joined(l, r);
    assert(whole.wf());
    assert(after[k] == whole);
    assert forall|i: int| 0 <= i < after.len() implies (#[trigger] after[i]).wf() by {
        if i < k {
            assert(after[i] == clips[i]);
            assert(clips[i].wf());
        } else if i > k {
            assert(after[i] == clips[i + 1]);
            assert(clips[i + 1].wf());
        }
    }
    assert forall|i: int, j: int| 0 <= i < j < after.len() implies (#[trigger] after[i]).end() <= (
    #[trigger] after[j]).start.0 by {
        let a = if i < k { i } else { i + 1 };
        let b = if j <= k { j } else { j + 1 };
        assert(clips[a].end() <= clips[b].start.0);
        if i < k {
            assert(after[i] == clips[i]);
        }
    }
    let frame = Frame(l.end() as u64);
    assert(left_part(whole, frame) == l);
    assert(right_part(whole, frame, r.id) == r);
    assert(split_clips(after, k, frame, r.id) =~= clips);
}

proof fn lemma_with_clips_wf(t: TimelineView, i: int, clips: Seq<ClipView>)
    requires
        t.wf(),
        0 <= i < t.tracks.len(),
        clips_wf(clips),
    ensures
        with_clips(t, i, clips).wf(),
        with_clips(with_clips(t, i, clips), i, t.tracks[i].clips) == t,
{
    let u = with_clips(t, i, clips);
    assert forall|j: int| 0 <= j < u.tracks.len() implies clips_wf((#[trigger] u.tracks[j]).clips) by {
        if j != i {
            assert(clips_wf(t.tracks[j].clips));
        }
    }
    assert forall|a: int, b: int| 0 <= a < b < u.tracks.len() implies (#[trigger] u.tracks[a]).id != (
    #[trigger] u.tracks[b]).id by {
        assert(t.tracks[a].id != t.tracks[b].id);
    }
    assert(with_clips(u, i, t.tracks[i].clips).tracks =~= t.tracks);
}

/// A step that was executed is undone exactly by its inverse, and executing it
/// again as it was gives the same contents; neither makes an id.
pub proof fn a_step_is_undone_by_its_inverse(t: TimelineState, s: Step)
    requires
        t.content.wf(),
    ensures
        run_step(t, s) matches Ok(e) ==> {
            &&& e.after.content.wf()
            &&& run_step(e.after, e.inverse) matches Ok(back)
            &&& back.after.content == t.content
            &&& back.after.cursor == e.after.cursor
            &&& forall|c: u64|
                (#[trigger] run_step(TimelineState { content: t.content, cursor: c }, e.applied)) matches Ok(again)
                    && again.after.content == e.after.content && again.after.cursor == c
            &&& forall|c: u64|
                (#[trigger] run_step(TimelineState { content: e.after.content, cursor: c }, e.inverse)) matches Ok(again)
                    && again.after.content == t.content && again.after.cursor == c
        },
{
    match run_step(t, s) {
        Err(_) => {},
        Ok(e) => {
            let track = match s {
                Step::Split { track, .. } => track,
                Step::Join { track, .. } => track,
            };
            lemma_position(t.content.tracks, track);
            let i = position_of(t.content.tracks, track)->Some_0;
            let clips = t.content.tracks[i].clips;
            assert(clips_wf(clips));
            let after = e.after.content;
            match s {
                Step::Split { frame, .. } => {
                    lemma_inside(clips, frame);
                    let k = inside_at(clips, frame)->Some_0;
                    let id = match e.applied {
                        Step::Split { new_id, .. } => new_id->Some_0,
                        Step::Join { .. } => ClipId(0),
                    };
                    lemma_split_wf(clips, k, frame, id);
                    let cut = split_clips(clips, k, frame, id);
                    assert(after.tracks[i].clips == cut);
                    lemma_with_clips_wf(t.content, i, cut);
                    lemma_position_kept(t.content.tracks, after.tracks, track);
                    lemma_cut_unique(cut, frame, k);
                },
                Step::Join { frame, .. } => {
                    lemma_cut(clips, frame, clips.len());
                    let k = cut_at(clips, frame, clips.len())->Some_0;
                    lemma_join_wf(clips, k);
                    let whole = join_clips(clips, k);
                    assert(after.tracks[i].clips == whole);
                    lemma_with_clips_wf(t.content, i, whole);
                    lemma_position_kept(t.content.tracks, after.tracks, track);
                    assert(frame == Frame(clips[k].end() as u64));
                    lemma_inside_unique(whole, frame, k);
                },
            }
        },
    }
}

/// Running one list of steps after another is running them as one.
pub proof fn lemma_run_concat(t: TimelineState, a: Seq<Step>, b: Seq<Step>)
    ensures
        run(t, a + b) == match run(t, a) {
            Err(e) => Err(e),
            Ok(x) => match run(x.after, b) {
                Err(e) => Err(e),
                Ok(y) => Ok(
                    Effect {
                        after: y.after,
                        applied: x.applied + y.applied,
                        inverse: y.inverse + x.inverse,
                    },
                ),
            },
        },
    decreases b.len(),
{
    if b.len() == 0 {
        assert(a + b =~= a);
        if let Ok(x) = run(t, a) {
            assert(x.applied + Seq::<Step>::empty() =~= x.applied);
            assert(Seq::<Step>::empty() + x.inverse =~= x.inverse);
        }
    } else {
        lemma_run_concat(t, a, b.drop_last());
        assert((a + b).drop_last() =~= a + b.drop_last());
        assert((a + b).last() == b.last());
        if let Ok(x) = run(t, a) {
            if let Ok(y) = run(x.after, b.drop_last()) {
                if let Ok(z) = run_step(y.after, b.last()) {
                    assert((x.applied + y.applied).push(z.applied) =~= x.applied + y.applied.push(
                        z.applied,
                    ));
                    assert(seq![z.inverse] + (y.inverse + x.inverse) =~= (seq![z.inverse]
                        + y.inverse) + x.inverse);
                }
            }
        }
    }
}

/// What ran can be undone and run again, exactly, whatever the id cursor is:
/// neither the inverse nor the recorded steps make an id.
pub proof fn an_edit_is_undone_by_its_inverse(t: TimelineState, steps: Seq<Step>, c: u64)
    requires
        t.content.wf(),
    ensures
        run(t, steps) matches Ok(e) ==> {
            &&& e.after.content.wf()
            &&& run(TimelineState { content: e.after.content, cursor: c }, e.inverse) matches Ok(back)
            &&& back.after == (TimelineState { content: t.content, cursor: c })
            &&& run(TimelineState { content: t.content, cursor: c }, e.applied) matches Ok(again)
            &&& again.after == (TimelineState { content: e.after.content, cursor: c })
        },
    decreases steps.len(),
{
    if steps.len() > 0 {
        if let Ok(before) = run(t, steps.drop_last()) {
            an_edit_is_undone_by_its_inverse(t, steps.drop_last(), c);
            a_step_is_undone_by_its_inverse(before.after, steps.last());
            if let Ok(last) = run_step(before.after, steps.last()) {
                let after = TimelineState { content: last.after.content, cursor: c };
                let mid = TimelineState { content: before.after.content, cursor: c };
                let start = TimelineState { content: t.content, cursor: c };
                let one = seq![last.inverse];
                assert(one.drop_last() =~= Seq::<Step>::empty());
                reveal_with_fuel(run, 2);
                assert(run_step(after, last.inverse) is Ok);
                assert(run(after, one)->Ok_0.after == mid);
                lemma_run_concat(after, one, before.inverse);
                let redo = before.applied.push(last.applied);
                assert(redo.drop_last() =~= before.applied);
                assert(run_step(mid, last.applied) is Ok);
                assert(run(start, redo)->Ok_0.after == after);
            }
        }
    }
}

fn same_media(a: &Option<MediaRef>, b: &Option<MediaRef>) -> (same: bool)
    ensures
        same == ((match *a {
            Some(m) => Some(m@),
            None => None,
        }) == (match *b {
            Some(m) => Some(m@),
            None => None,
        })),
{
    match (a, b) {
        (Some(x), Some(y)) => x.path == y.path && x.frames == y.frames && x.offline == y.offline
            && same_u32(x.stream, y.stream) && same_u16(x.channels, y.channels),
        (None, None) => true,
        _ => false,
    }
}

fn same_u32(a: Option<u32>, b: Option<u32>) -> (same: bool)
    ensures
        same == (a == b),
{
    match (a, b) {
        (Some(x), Some(y)) => x == y,
        (None, None) => true,
        _ => false,
    }
}

fn same_u16(a: Option<u16>, b: Option<u16>) -> (same: bool)
    ensures
        same == (a == b),
{
    match (a, b) {
        (Some(x), Some(y)) => x == y,
        (None, None) => true,
        _ => false,
    }
}

fn same_words(a: &Option<String>, b: &Option<String>) -> (same: bool)
    ensures
        same == ((match *a {
            Some(m) => Some(m@),
            None => None,
        }) == (match *b {
            Some(m) => Some(m@),
            None => None,
        })),
{
    match (a, b) {
        (Some(x), Some(y)) => *x == *y,
        (None, None) => true,
        _ => false,
    }
}

fn one_clip(l: &Clip, r: &Clip) -> (b: bool)
    ensures
        b == are_one(l@, r@),
{
    let same_group = match (l.group, r.group) {
        (Some(x), Some(y)) => x == y,
        (None, None) => true,
        _ => false,
    };
    let length: u128 = l.duration.0 as u128 + r.duration.0 as u128;
    l.start.0 as u128 + l.duration.0 as u128 == r.start.0 as u128 && l.source_in.0 as u128
        + l.duration.0 as u128 == r.source_in.0 as u128 && l.label == r.label && same_media(
        &l.media,
        &r.media,
    ) && same_words(&l.text, &r.text) && l.props == r.props && same_group
        && r.transition_in.is_none() && l.start.0 as u128 + length <= u64::MAX as u128
        && l.source_in.0 as u128 + length <= u64::MAX as u128
}

fn find_track(tl: &Timeline, id: TrackId) -> (found: Option<usize>)
    ensures
        match found {
            Some(i) => i < tl.tracks@.len() && position_of(tl@.tracks, id) == Some(i as int),
            None => position_of(tl@.tracks, id) is None,
        },
{
    let ghost all = tl@.tracks;
    let mut i: usize = tl.tracks.len();
    assert(all.take(all.len() as int) =~= all);
    while i > 0
        invariant
            i <= tl.tracks@.len(),
            all == tl@.tracks,
            position_of(all, id) == position_of(all.take(i as int), id),
        decreases i,
    {
        assert(all.take(i as int).drop_last() =~= all.take(i as int - 1));
        assert(all.take(i as int).last() == tl.tracks@[i - 1]@);
        if tl.tracks[i - 1].id == id {
            return Some(i - 1);
        }
        i = i - 1;
    }
    None
}

fn find_inside(clips: &Vec<Clip>, frame: Frame) -> (found: Option<usize>)
    requires
        clips_wf(clips_view(clips@)),
    ensures
        match found {
            Some(k) => k < clips@.len() && inside_at(clips_view(clips@), frame) == Some(k as int),
            None => inside_at(clips_view(clips@), frame) is None,
        },
{
    let ghost all = clips_view(clips@);
    let mut k: usize = clips.len();
    assert(all.take(all.len() as int) =~= all);
    while k > 0
        invariant
            k <= clips@.len(),
            all == clips_view(clips@),
            clips_wf(all),
            inside_at(all, frame) == inside_at(all.take(k as int), frame),
        decreases k,
    {
        assert(all.take(k as int).drop_last() =~= all.take(k as int - 1));
        assert(all.take(k as int).last() == all[k - 1]);
        let c = &clips[k - 1];
        assert(all[k - 1] == c@);
        assert(all[k - 1].wf());
        if c.start.0 < frame.0 && frame.0 < c.start.0 + c.duration.0 {
            return Some(k - 1);
        }
        k = k - 1;
    }
    None
}

fn find_cut(clips: &Vec<Clip>, frame: Frame) -> (found: Option<usize>)
    requires
        clips_wf(clips_view(clips@)),
    ensures
        match found {
            Some(k) => k + 1 < clips@.len() && cut_at(clips_view(clips@), frame, clips@.len())
                == Some(k as int),
            None => cut_at(clips_view(clips@), frame, clips@.len()) is None,
        },
{
    let ghost all = clips_view(clips@);
    let len: usize = clips.len();
    let mut n: usize = len;
    while n > 0
        invariant
            n <= len,
            len == clips@.len(),
            all == clips_view(clips@),
            clips_wf(all),
            cut_at(all, frame, len as nat) == cut_at(all, frame, n as nat),
        decreases n,
    {
        let c = &clips[n - 1];
        assert(all[n - 1] == c@);
        assert(all[n - 1].wf());
        if n < len && c.start.0 + c.duration.0 == frame.0 && one_clip(c, &clips[n]) {
            return Some(n - 1);
        }
        n = n - 1;
    }
    None
}

/// Runs one step: the step as executed and its inverse, or the reason why it
/// was rejected, in which case nothing changed.
fn apply_step(tl: &mut Timeline, s: Step) -> (r: Result<(Step, Step), CoreError>)
    requires
        old(tl)@.wf(),
    ensures
        final(tl)@.wf(),
        match run_step(old(tl).state(), s) {
            Ok(e) => r == Ok::<(Step, Step), CoreError>((e.applied, e.inverse)) && final(tl).state() == e.after,
            Err(e) => r == Err::<(Step, Step), CoreError>(e) && final(tl).state() == old(tl).state(),
        },
{
    proof {
        a_step_is_undone_by_its_inverse(tl.state(), s);
    }
    let ghost before = tl.state();
    match s {
        Step::Split { track, frame, new_id } => {
            let i: usize = match find_track(tl, track) {
                Some(i) => i,
                None => {
                    return Err(CoreError::NoSuchTrack(track));
                },
            };
            let ghost clips = before.content.tracks[i as int].clips;
            assert(clips == clips_view(tl.tracks@[i as int].clips@));
            assert(clips_wf(clips));
            let k: usize = match find_inside(&tl.tracks[i].clips, frame) {
                Some(k) => k,
                None => {
                    return Err(CoreError::NothingToSplit(frame));
                },
            };
            proof {
                lemma_inside(clips, frame);
                assert(clips[k as int].wf());
            }
            let id = match new_id {
                Some(id) => id,
                None => {
                    if tl.id_cursor == u64::MAX {
                        return Err(CoreError::OutOfIds);
                    }
                    let id = ClipId(tl.id_cursor);
                    tl.id_cursor = tl.id_cursor + 1;
                    id
                },
            };
            let count: usize = tl.tracks[i].clips.len();
            assert(k < count);
            let mut right = tl.tracks[i].clips[k].clone();
            let head: u64 = frame.0 - right.start.0;
            right.id = id;
            right.start = frame;
            right.duration = Frame(right.duration.0 - head);
            right.source_in = Frame(right.source_in.0 + head);
            right.transition_in = None;
            assert(right@ == right_part(clips[k as int], frame, id));
            tl.tracks[i].clips[k].duration = Frame(head);
            tl.tracks[i].clips.insert(k + 1, right);
            proof {
                assert(clips_view(tl.tracks@[i as int].clips@) =~= split_clips(
                    clips,
                    k as int,
                    frame,
                    id,
                ));
                assert(tl@.tracks =~= with_clips(
                    before.content,
                    i as int,
                    split_clips(clips, k as int, frame, id),
                ).tracks);
            }
            Ok((Step::Split { track, frame, new_id: Some(id) }, Step::Join { track, frame }))
        },
        Step::Join { track, frame } => {
            let i: usize = match find_track(tl, track) {
                Some(i) => i,
                None => {
                    return Err(CoreError::NoSuchTrack(track));
                },
            };
            let ghost clips = before.content.tracks[i as int].clips;
            assert(clips == clips_view(tl.tracks@[i as int].clips@));
            assert(clips_wf(clips));
            let k: usize = match find_cut(&tl.tracks[i].clips, frame) {
                Some(k) => k,
                None => {
                    return Err(CoreError::NothingToJoin(frame));
                },
            };
            proof {
                lemma_cut(clips, frame, clips.len());
            }
            let count: usize = tl.tracks[i].clips.len();
            assert(k + 1 < count);
            let right = tl.tracks[i].clips.remove(k + 1);
            assert(right@ == clips[k + 1]);
            let left: u64 = tl.tracks[i].clips[k].duration.0;
            tl.tracks[i].clips[k].duration = Frame(left + right.duration.0);
            proof {
                assert(clips_view(tl.tracks@[i as int].clips@) =~= join_clips(clips, k as int));
                assert(tl@.tracks =~= with_clips(
                    before.content,
                    i as int,
                    join_clips(clips, k as int),
                ).tracks);
            }
            Ok((s, Step::Split { track, frame, new_id: Some(right.id) }))
        },
    }
}

/// What a command did, in the form in which it is recorded.
#[derive(Debug)]
pub struct Applied {
    pub applied: EditCommand,
    pub inverse: EditCommand,
}

/// Runs steps on a timeline: all of them, or nothing.
pub fn apply_steps(tl: &mut Timeline, steps: &Vec<Step>) -> (r: Result<
    (Vec<Step>, Vec<Step>),
    CoreError,
>)
    requires
        old(tl)@.wf(),
    ensures
        final(tl)@.wf(),
        match run(old(tl).state(), steps@) {
            Ok(e) => r is Ok && r->Ok_0.0@ == e.applied && r->Ok_0.1@ == e.inverse && final(tl).state() == e.after,
            Err(e) => r == Err::<(Vec<Step>, Vec<Step>), CoreError>(e) && final(tl).state() == old(tl).state(),
        },
{
    let mut work = tl.clone();
    let ghost start = tl.state();
    let mut applied: Vec<Step> = Vec::new();
    let mut inverse: Vec<Step> = Vec::new();
    let mut i: usize = 0;
    assert(steps@.take(0) =~= Seq::<Step>::empty());
    while i < steps.len()
        invariant
            i <= steps@.len(),
            start.content.wf(),
            start == old(tl).state(),
            tl.state() == start,
            tl@.wf(),
            work@.wf(),
            run(start, steps@.take(i as int)) is Ok,
            run(start, steps@.take(i as int))->Ok_0.after == work.state(),
            run(start, steps@.take(i as int))->Ok_0.applied == applied@,
            run(start, steps@.take(i as int))->Ok_0.inverse == inverse@,
        decreases steps@.len() - i,
    {
        let ghost done = steps@.take(i as int + 1);
        assert(done.drop_last() =~= steps@.take(i as int));
        match apply_step(&mut work, steps[i]) {
            Ok((a, b)) => {
                let ghost held = inverse@;
                applied.push(a);
                inverse.insert(0, b);
                assert(inverse@ =~= seq![b] + held);
            },
            Err(e) => {
                proof {
                    lemma_run_fails(start, steps@, i + 1);
                }
                return Err(e);
            },
        }
        i = i + 1;
    }
    assert(steps@.take(i as int) =~= steps@);
    *tl = work;
    Ok((applied, inverse))
}

proof fn lemma_run_fails(t: TimelineState, steps: Seq<Step>, n: int)
    requires
        0 <= n <= steps.len(),
        run(t, steps.take(n)) is Err,
    ensures
        run(t, steps) == run(t, steps.take(n)),
    decreases steps.len() - n,
{
    if n == steps.len() {
        assert(steps.take(n) =~= steps);
    } else {
        assert(steps.take(n + 1).drop_last() =~= steps.take(n));
        lemma_run_fails(t, steps, n + 1);
    }
}

impl EditCommand {
    /// The steps of the command.
    pub fn steps(&self) -> (v: Vec<Step>)
        ensures
            v@ == self@,
    {
        match self {
            EditCommand::Split { track, frame, new_id } => {
                let mut v: Vec<Step> = Vec::new();
                v.push(Step::Split { track: *track, frame: *frame, new_id: *new_id });
                assert(v@ =~= self@);
                v
            },
            EditCommand::Join { track, frame } => {
                let mut v: Vec<Step> = Vec::new();
                v.push(Step::Join { track: *track, frame: *frame });
                assert(v@ =~= self@);
                v
            },
            EditCommand::Sequence(steps) => copy_steps(steps),
        }
    }

    /// Runs the command: what it did, or the reason why it was rejected, in
    /// which case nothing changed.
    pub fn apply(&self, tl: &mut Timeline) -> (r: Result<Applied, CmdError>)
        requires
            old(tl)@.wf(),
        ensures
            final(tl)@.wf(),
            match run(old(tl).state(), self@) {
                Ok(e) => {
                    &&& r is Ok
                    &&& r->Ok_0.applied@ == e.applied
                    &&& r->Ok_0.inverse@ == e.inverse
                    &&& description(r->Ok_0.applied) == description(*self)
                    &&& final(tl).state() == e.after
                },
                Err(e) => r is Err && r->Err_0@ == CmdErrorView::Core(e) && final(tl).state()
                    == old(tl).state(),
            },
    {
        let steps = self.steps();
        proof {
            lemma_run_lengths(tl.state(), self@);
        }
        match apply_steps(tl, &steps) {
            Ok((applied, inverse)) => {
                let named = self.renamed(applied);
                Ok(Applied { applied: named, inverse: EditCommand::Sequence(inverse) })
            },
            Err(e) => Err(CmdError::Core(e)),
        }
    }

    /// The command with its steps replaced by the ones that were executed.
    fn renamed(&self, steps: Vec<Step>) -> (c: EditCommand)
        requires
            steps@.len() == self@.len(),
            self is Split ==> (steps@[0] matches Step::Split { track, frame, new_id } && track
                == self->Split_track && frame == self->Split_frame),
            self is Join ==> steps@[0] == (Step::Join {
                track: self->Join_track,
                frame: self->Join_frame,
            }),
        ensures
            c@ == steps@,
            description(c) == description(*self),
    {
        match self {
            EditCommand::Split { track, frame, new_id } => {
                let pinned = match steps[0] {
                    Step::Split { new_id, .. } => new_id,
                    Step::Join { .. } => None,
                };
                let c = EditCommand::Split { track: *track, frame: *frame, new_id: pinned };
                assert(c@ =~= steps@);
                c
            },
            EditCommand::Join { track, frame } => {
                let c = EditCommand::Join { track: *track, frame: *frame };
                assert(c@ =~= steps@);
                c
            },
            EditCommand::Sequence(_) => EditCommand::Sequence(steps),
        }
    }

    /// What the command is called in a list of changes.
    pub fn describe(&self) -> (s: String)
        ensures
            s@ == description(*self),
    {
        match self {
            EditCommand::Split { track, frame, .. } => {
                let mut s = "split at ".to_owned();
                push_decimal(&mut s, frame.0);
                s.append(" on track ");
                push_decimal(&mut s, track.0);
                s
            },
            EditCommand::Join { track, frame } => {
                let mut s = "join at ".to_owned();
                push_decimal(&mut s, frame.0);
                s.append(" on track ");
                push_decimal(&mut s, track.0);
                s
            },
            EditCommand::Sequence(steps) => {
                let mut s = String::new();
                push_decimal(&mut s, steps.len() as u64);
                s.append(" steps");
                assert(s@ =~= description(*self));
                s
            },
        }
    }

    /// The command in the form in which it can be run again.
    pub fn for_repeat(&self) -> (c: EditCommand)
        ensures
            c@ == repeated(*self),
            description(c) == description(*self),
    {
        match self {
            EditCommand::Split { track, frame, .. } => {
                let c = EditCommand::Split { track: *track, frame: *frame, new_id: None };
                assert(c@ =~= repeated(*self));
                c
            },
            EditCommand::Join { track, frame } => {
                let c = EditCommand::Join { track: *track, frame: *frame };
                assert(c@ =~= repeated(*self));
                c
            },
            EditCommand::Sequence(steps) => {
                let mut v: Vec<Step> = Vec::new();
                let mut i: usize = 0;
                while i < steps.len()
                    invariant
                        i <= steps@.len(),
                        v@.len() == i,
                        forall|k: int| 0 <= k < i ==> #[trigger] v@[k] == repeated_step(steps@[k]),
                    decreases steps@.len() - i,
                {
                    v.push(
                        match steps[i] {
                            Step::Split { track, frame, .. } => Step::Split {
                                track,
                                frame,
                                new_id: None,
                            },
                            Step::Join { track, frame } => Step::Join { track, frame },
                        },
                    );
                    i = i + 1;
                }
                let c = EditCommand::Sequence(v);
                assert(c@ =~= repeated(*self));
                c
            },
        }
    }
}

proof fn lemma_run_lengths(t: TimelineState, steps: Seq<Step>)
    ensures
        run(t, steps) matches Ok(e) ==> {
            &&& e.applied.len() == steps.len()
            &&& e.inverse.len() == steps.len()
            &&& forall|i: int|
                0 <= i < steps.len() ==> match #[trigger] steps[i] {
                    Step::Split { track, frame, new_id } => e.applied[i] matches Step::Split {
                        track: at,
                        frame: on,
                        new_id: pinned,
                    } && at == track && on == frame,
                    Step::Join { track, frame } => e.applied[i] == steps[i],
                }
        },
    decreases steps.len(),
{
    if steps.len() > 0 {
        lemma_run_lengths(t, steps.drop_last());
        if let Ok(e) = run(t, steps) {
            let before = run(t, steps.drop_last())->Ok_0;
            assert forall|i: int| 0 <= i < steps.len() implies match #[trigger] steps[i] {
                Step::Split { track, frame, new_id } => e.applied[i] matches Step::Split {
                    track: at,
                    frame: on,
                    new_id: pinned,
                } && at == track && on == frame,
                Step::Join { track, frame } => e.applied[i] == steps[i],
            } by {
                if i < steps.len() - 1 {
                    assert(steps.drop_last()[i] == steps[i]);
                    assert(e.applied[i] == before.applied[i]);
                }
            }
        }
    }
}

/// A cut changes nothing that is played: the two parts lie where the clip lay,
/// the second plays on where the first stops, both play the same media in the
/// same way, and the first keeps the clip's name and transition. All other clips
/// and tracks are as they were.
pub proof fn a_cut_plays_what_was_there(
    t: TimelineState,
    i: int,
    k: int,
    frame: Frame,
    new_id: Option<ClipId>,
)
    requires
        t.content.wf(),
        0 <= i < t.content.tracks.len(),
        0 <= k < t.content.tracks[i].clips.len(),
        t.content.tracks[i].clips[k].start.0 < frame.0,
        frame.0 < t.content.tracks[i].clips[k].start.0 + t.content.tracks[i].clips[k].duration.0,
        new_id is Some || t.cursor < u64::MAX,
    ensures
        ({
            let track = t.content.tracks[i].id;
            let clips = t.content.tracks[i].clips;
            let whole = clips[k];
            let r = run_step(t, Step::Split { track, frame, new_id });
            &&& r is Ok
            &&& r->Ok_0.after.content.tracks.len() == t.content.tracks.len()
            &&& forall|j: int|
                0 <= j < t.content.tracks.len() && j != i ==> r->Ok_0.after.content.tracks[j]
                    == #[trigger] t.content.tracks[j]
            &&& r->Ok_0.after.content == (TimelineView {
                tracks: r->Ok_0.after.content.tracks,
                ..t.content
            })
            &&& r->Ok_0.after.content.tracks[i] == (TrackView {
                clips: r->Ok_0.after.content.tracks[i].clips,
                ..t.content.tracks[i]
            })
            &&& ({
                let after = r->Ok_0.after.content.tracks[i].clips;
                let first = after[k];
                let second = after[k + 1];
                &&& after.len() == clips.len() + 1
                &&& forall|j: int| 0 <= j < k ==> #[trigger] after[j] == clips[j]
                &&& forall|j: int| k + 1 < j < after.len() ==> #[trigger] after[j] == clips[j - 1]
                &&& first.start == whole.start
                &&& first.start.0 + first.duration.0 == frame.0
                &&& second.start == frame
                &&& first.duration.0 + second.duration.0 == whole.duration.0
                &&& first.source_in == whole.source_in
                &&& second.source_in.0 == whole.source_in.0 + first.duration.0
                &&& first.id == whole.id
                &&& second.id == (if new_id is Some {
                    new_id->Some_0
                } else {
                    ClipId(t.cursor)
                })
                &&& first.transition_in == whole.transition_in
                &&& second.transition_in is None
                &&& first.label == whole.label && second.label == whole.label
                &&& first.media == whole.media && second.media == whole.media
                &&& first.text == whole.text && second.text == whole.text
                &&& first.props == whole.props && second.props == whole.props
                &&& first.group == whole.group && second.group == whole.group
            })
            &&& r->Ok_0.after.cursor == (if new_id is Some {
                t.cursor as int
            } else {
                t.cursor + 1
            })
        }),
{
    lemma_position(t.content.tracks, t.content.tracks[i].id);
    lemma_inside_unique(t.content.tracks[i].clips, frame, k);
}

/// A cut is refused where there is no such track, and where no clip of the
/// track has the frame strictly inside it; and only there, while there are ids.
pub proof fn a_cut_needs_a_clip(t: TimelineState, track: TrackId, frame: Frame, new_id: Option<ClipId>)
    requires
        t.content.wf(),
    ensures
        run_step(t, Step::Split { track, frame, new_id }) == Err::<StepEffect, CoreError>(
            CoreError::NoSuchTrack(track),
        ) <==> (forall|i: int|
            0 <= i < t.content.tracks.len() ==> (#[trigger] t.content.tracks[i]).id != track),
        forall|i: int|
            0 <= i < t.content.tracks.len() && (#[trigger] t.content.tracks[i]).id == track ==> (
            run_step(t, Step::Split { track, frame, new_id }) == Err::<StepEffect, CoreError>(
                CoreError::NothingToSplit(frame),
            ) <==> (forall|k: int|
                0 <= k < t.content.tracks[i].clips.len() ==> !((
                #[trigger] t.content.tracks[i].clips[k]).start.0 < frame.0 && frame.0
                    < t.content.tracks[i].clips[k].start.0
                    + t.content.tracks[i].clips[k].duration.0))),
{
    lemma_position(t.content.tracks, track);
    assert forall|i: int|
        0 <= i < t.content.tracks.len() && (#[trigger] t.content.tracks[i]).id == track implies (
    run_step(t, Step::Split { track, frame, new_id }) == Err::<StepEffect, CoreError>(
        CoreError::NothingToSplit(frame),
    ) <==> (forall|k: int|
        0 <= k < t.content.tracks[i].clips.len() ==> !((
        #[trigger] t.content.tracks[i].clips[k]).start.0 < frame.0 && frame.0
            < t.content.tracks[i].clips[k].start.0 + t.content.tracks[i].clips[k].duration.0))) by {
        let clips = t.content.tracks[i].clips;
        lemma_inside(clips, frame);
        if inside_at(clips, frame) is None {
            assert forall|k: int| 0 <= k < clips.len() implies !((#[trigger] clips[k]).start.0
                < frame.0 && frame.0 < clips[k].start.0 + clips[k].duration.0) by {
                assert(!is_inside(clips[k], frame));
            }
        }
    }
}

/// Healing a cut plays what the two clips played: the clip lies where they lay,
/// for as long, from the source frame at which the first began. It is the first
/// of them that stays.
pub proof fn a_healed_cut_plays_both_clips(t: TimelineState, i: int, k: int)
    requires
        t.content.wf(),
        0 <= i < t.content.tracks.len(),
        0 <= k,
        k + 1 < t.content.tracks[i].clips.len(),
        ({
            let l = t.content.tracks[i].clips[k];
            let r = t.content.tracks[i].clips[k + 1];
            &&& l.start.0 + l.duration.0 == r.start.0
            &&& l.source_in.0 + l.duration.0 == r.source_in.0
            &&& l.label == r.label && l.media == r.media && l.text == r.text
            &&& l.props == r.props && l.group == r.group
            &&& r.transition_in is None
        }),
    ensures
        ({
            let clips = t.content.tracks[i].clips;
            let l = clips[k];
            let r = clips[k + 1];
            let e = run_step(t, Step::Join { track: t.content.tracks[i].id, frame: r.start });
            &&& e is Ok
            &&& e->Ok_0.after.cursor == t.cursor
            &&& e->Ok_0.after.content.tracks.len() == t.content.tracks.len()
            &&& forall|j: int|
                0 <= j < t.content.tracks.len() && j != i ==> e->Ok_0.after.content.tracks[j]
                    == #[trigger] t.content.tracks[j]
            &&& ({
                let after = e->Ok_0.after.content.tracks[i].clips;
                &&& after.len() == clips.len() - 1
                &&& forall|j: int| 0 <= j < k ==> #[trigger] after[j] == clips[j]
                &&& forall|j: int| k < j < after.len() ==> #[trigger] after[j] == clips[j + 1]
                &&& after[k].duration.0 == l.duration.0 + r.duration.0
                &&& after[k] == (ClipView { duration: after[k].duration, ..l })
            })
        }),
{
    let clips = t.content.tracks[i].clips;
    let l = clips[k];
    let r = clips[k + 1];
    assert(clips_wf(clips));
    assert(l.wf() && r.wf());
    assert(are_one(l, r));
    lemma_position(t.content.tracks, t.content.tracks[i].id);
    lemma_cut_unique(clips, r.start, k);
}

/// Clips that are not one are not healed: not across a gap, not where the
/// source jumps, and not where they are played differently.
pub proof fn clips_that_differ_stay_apart(t: TimelineState, i: int, k: int)
    requires
        t.content.wf(),
        0 <= i < t.content.tracks.len(),
        0 <= k,
        k + 1 < t.content.tracks[i].clips.len(),
        ({
            let l = t.content.tracks[i].clips[k];
            let r = t.content.tracks[i].clips[k + 1];
            ||| l.start.0 + l.duration.0 != r.start.0
            ||| l.source_in.0 + l.duration.0 != r.source_in.0
            ||| l.label != r.label
            ||| l.media != r.media
            ||| l.text != r.text
            ||| l.props != r.props
            ||| l.group != r.group
            ||| r.transition_in is Some
        }),
    ensures
        run_step(
            t,
            Step::Join {
                track: t.content.tracks[i].id,
                frame: t.content.tracks[i].clips[k + 1].start,
            },
        ) == Err::<StepEffect, CoreError>(
            CoreError::NothingToJoin(t.content.tracks[i].clips[k + 1].start),
        ),
{
    let clips = t.content.tracks[i].clips;
    let frame = clips[k + 1].start;
    assert(clips_wf(clips));
    lemma_position(t.content.tracks, t.content.tracks[i].id);
    lemma_cut(clips, frame, clips.len());
    if cut_at(clips, frame, clips.len()) is Some {
        let j = cut_at(clips, frame, clips.len())->Some_0;
        assert(clips[j].wf() && clips[j + 1].wf() && clips[k].wf() && clips[k + 1].wf());
        if j < k {
            assert(clips[j + 1].start.0 == frame.0);
            assert(clips[j + 1].end() <= clips[k + 1].start.0);
        } else if j > k {
            assert(clips[k + 1].end() <= clips[j + 1].start.0);
        }
    }
}

/// A command that is run again cuts at the same frames of the same tracks, in
/// the same order, and names no clip.
pub proof fn a_repeated_command_names_no_clip(c: EditCommand, i: int)
    requires
        0 <= i < c@.len(),
    ensures
        repeated(c).len() == c@.len(),
        c@[i] is Split ==> repeated(c)[i] is Split && repeated(c)[i]->Split_new_id is None
            && repeated(c)[i]->Split_track == c@[i]->Split_track && repeated(c)[i]->Split_frame
            == c@[i]->Split_frame,
        c@[i] is Join ==> repeated(c)[i] == c@[i],
{
}

/// Steps run in their order, each on what the one before it left, and stop at
/// the first that is refused.
pub proof fn steps_run_in_their_order(t: TimelineState, first: Step, rest: Seq<Step>)
    ensures
        run_step(t, first) is Err ==> run(t, seq![first] + rest) is Err && run(
            t,
            seq![first] + rest,
        )->Err_0 == run_step(t, first)->Err_0,
        run_step(t, first) is Ok && run(run_step(t, first)->Ok_0.after, rest) is Ok ==> run(
            t,
            seq![first] + rest,
        ) is Ok && run(t, seq![first] + rest)->Ok_0.after == run(
            run_step(t, first)->Ok_0.after,
            rest,
        )->Ok_0.after,
        run_step(t, first) is Ok && run(run_step(t, first)->Ok_0.after, rest) is Err ==> run(
            t,
            seq![first] + rest,
        ) is Err,
{
    lemma_run_concat(t, seq![first], rest);
    assert(seq![first].drop_last() =~= Seq::<Step>::empty());
    assert(seq![first].last() == first);
    reveal_with_fuel(run, 2);
}

} // verus!
