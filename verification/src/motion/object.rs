//! Text objects: a range, and the tracks it applies to.
//!
//! It is the object, not the verb, that decides whether an edit stays on one
//! track or follows a link group.
use vstd::prelude::*;

use crate::model::Clip;
use crate::model::Frame;
use crate::model::GroupId;
use crate::model::Timeline;
use crate::model::Track;
use crate::model::TrackId;
use crate::motion::error::MotionError;
use crate::motion::error::Refusal;
use crate::motion::motion::MotionCtx;
use crate::motion::motion::missing;
use crate::motion::predicate::PredicateIndex;
use crate::motion::target::Resolved;
use crate::motion::target::Scope;
use crate::motion::target::TimeRange;
use crate::motion::target::a_scope_is_a_set_in_order;
use crate::motion::target::first_occurrences;
use crate::text::decimal_string;

verus! {

/// The built-in text objects.
#[derive(Clone, Copy, Debug, PartialEq, Eq, Structural)]
pub enum TextObject {
    /// The clip without its transitions.
    InnerClip,
    /// The clip with its transitions.
    AClip,
    /// The extent of the clip, on the focused track only.
    InnerTrack,
    /// The extent of the clip, on every track its link group reaches.
    ATrack,
    /// A selection; `None` where there is none.
    InnerSegment(Option<TimeRange>),
}

/// The tracks among the first `n` that hold a member of a group, once for
/// every member, in order.
pub open spec fn member_tracks(tracks: Seq<Track>, g: GroupId, n: nat) -> Seq<TrackId>
    decreases n,
{
    if n == 0 {
        Seq::empty()
    } else {
        member_tracks(tracks, g, (n - 1) as nat) + member_ids(
            tracks[n - 1].id,
            tracks[n - 1].clips@,
            g,
            tracks[n - 1].clips@.len(),
        )
    }
}

/// `id` once for every member of a group among the first `n` clips.
pub open spec fn member_ids(id: TrackId, clips: Seq<Clip>, g: GroupId, n: nat) -> Seq<TrackId>
    decreases n,
{
    if n == 0 {
        Seq::empty()
    } else {
        let before = member_ids(id, clips, g, (n - 1) as nat);
        if clips[n - 1].group == Some(g) {
            before.push(id)
        } else {
            before
        }
    }
}

/// What a text object covers.
pub enum Extent {
    Covers(TimeRange, Seq<TrackId>),
    Refused(Refusal),
    /// A place, which no built-in object is.
    Place,
}

/// What a result says.
pub open spec fn extent_view(r: Result<Resolved, MotionError>) -> Extent {
    match r {
        Ok(Resolved::Range(range, scope)) => Extent::Covers(range, scope@),
        Ok(_) => Extent::Place,
        Err(e) => Extent::Refused(e@),
    }
}

/// What a text object covers: the clip under the playhead, on the tracks that
/// the object reaches.
pub open spec fn object_extent(o: TextObject, tl: Timeline) -> Extent {
    let track = tl.playhead.track;
    match o {
        TextObject::InnerSegment(None) => Extent::Refused(Refusal::NoSegment),
        TextObject::InnerSegment(Some(range)) => Extent::Covers(range, seq![track]),
        _ => match tl.track_position(track) {
            None => Extent::Refused(missing(track)),
            Some(i) => {
                let t = tl.tracks@[i];
                match t.covering(tl.playhead.frame) {
                    None => Extent::Refused(Refusal::NoClipUnderPlayhead(t.name@)),
                    Some(k) => {
                        let clip = t.clips@[k];
                        let whole = TimeRange {
                            start: clip.start,
                            end: Frame(clip.spec_end() as u64),
                        };
                        match o {
                            TextObject::AClip => Extent::Covers(
                                TimeRange {
                                    start: Frame(t.widened_start(k) as u64),
                                    end: Frame(t.widened_end(k) as u64),
                                },
                                seq![track],
                            ),
                            TextObject::ATrack => match clip.group {
                                Some(g) => Extent::Covers(
                                    whole,
                                    first_occurrences(
                                        seq![track] + member_tracks(
                                            tl.tracks@,
                                            g,
                                            tl.tracks@.len(),
                                        ),
                                    ),
                                ),
                                None => Extent::Covers(whole, seq![track]),
                            },
                            _ => Extent::Covers(whole, seq![track]),
                        }
                    },
                }
            },
        },
    }
}

/// Appends the tracks that hold a member of a group.
fn push_members(v: &mut Vec<TrackId>, tl: &Timeline, g: GroupId)
    ensures
        final(v)@ == old(v)@ + member_tracks(tl.tracks@, g, tl.tracks@.len()),
{
    let ghost before = v@;
    let mut i: usize = 0;
    assert(v@ =~= before + member_tracks(tl.tracks@, g, 0));
    while i < tl.tracks.len()
        invariant
            i <= tl.tracks@.len(),
            v@ == before + member_tracks(tl.tracks@, g, i as nat),
        decreases tl.tracks@.len() - i,
    {
        let t = &tl.tracks[i];
        let ghost so_far = v@;
        let mut k: usize = 0;
        assert(v@ =~= so_far + member_ids(t.id, t.clips@, g, 0));
        while k < t.clips.len()
            invariant
                k <= t.clips@.len(),
                v@ == so_far + member_ids(t.id, t.clips@, g, k as nat),
            decreases t.clips@.len() - k,
        {
            let linked = match t.clips[k].group {
                Some(other) => other == g,
                None => false,
            };
            if linked {
                v.push(t.id);
            }
            k = k + 1;
            assert(v@ =~= so_far + member_ids(t.id, t.clips@, g, k as nat));
        }
        i = i + 1;
        assert(v@ =~= before + member_tracks(tl.tracks@, g, i as nat));
    }
}

/// Anything that resolves to a range and its tracks.
pub trait Object {
    fn resolve<A: PredicateIndex>(&self, ctx: &MotionCtx<'_, A>) -> Result<
        Resolved,
        MotionError,
    > where Self: Sized
        requires
            ctx.timeline.wf(),
    ;
}

impl Object for TextObject {
    fn resolve<A: PredicateIndex>(&self, ctx: &MotionCtx<'_, A>) -> (r: Result<
        Resolved,
        MotionError,
    >)
        ensures
            extent_view(r) == object_extent(*self, *ctx.timeline),
    {
        let tl = ctx.timeline;
        let track = tl.playhead.track;
        if let TextObject::InnerSegment(segment) = self {
            return match segment {
                Some(range) => Ok(Resolved::Range(*range, Scope::single(track))),
                None => Err(MotionError::NoSegment),
            };
        }
        let i: usize = match tl.track_index(track) {
            Some(i) => i,
            None => {
                return Err(MotionError::NoSuchTrack(decimal_string(track.0)));
            },
        };
        let t = &tl.tracks[i];
        assert(tl.tracks@[i as int].wf());
        let k: usize = match t.clip_index_at(tl.playhead.frame) {
            Some(k) => k,
            None => {
                return Err(MotionError::NoClipUnderPlayhead { track: t.name.clone() });
            },
        };
        let clip = &t.clips[k];
        assert(t.clips@[k as int].wf());
        let whole = TimeRange::new(clip.start, clip.end());
        match self {
            TextObject::AClip => {
                let (start, end) = t.transition_range(k);
                Ok(Resolved::Range(TimeRange::new(start, end), Scope::single(track)))
            },
            TextObject::ATrack => match clip.group {
                Some(g) => {
                    let mut tracks: Vec<TrackId> = Vec::new();
                    tracks.push(track);
                    assert(tracks@ =~= seq![track]);
                    push_members(&mut tracks, tl, g);
                    Ok(Resolved::Range(whole, Scope::new(tracks.as_slice())))
                },
                None => Ok(Resolved::Range(whole, Scope::single(track))),
            },
            _ => Ok(Resolved::Range(whole, Scope::single(track))),
        }
    }
}

/// A clip that is not linked gives `a track` the same extent as `inner track`,
/// and a clip without transitions gives `a clip` that of `inner clip`.
pub proof fn objects_agree_on_a_plain_clip(tl: Timeline, i: int, k: int)
    requires
        tl.wf(),
        tl.track_position(tl.playhead.track) == Some(i),
        tl.tracks@[i].covering(tl.playhead.frame) == Some(k),
    ensures
        tl.tracks@[i].clips@[k].group is None ==> object_extent(TextObject::ATrack, tl)
            == object_extent(TextObject::InnerTrack, tl),
        tl.tracks@[i].attached_transition(k) is None && tl.tracks@[i].attached_transition(k + 1) is None
            ==> object_extent(TextObject::AClip, tl) == object_extent(TextObject::InnerClip, tl),
        object_extent(TextObject::InnerClip, tl) == object_extent(TextObject::InnerTrack, tl),
{
}

/// `a track` always covers the focused track, first of all and only once.
pub proof fn a_track_begins_with_the_focus(tl: Timeline)
    ensures
        object_extent(TextObject::ATrack, tl) matches Extent::Covers(range, tracks) ==> {
            &&& tracks.len() > 0
            &&& tracks[0] == tl.playhead.track
            &&& forall|i: int, j: int| 0 <= i < j < tracks.len() ==> tracks[i] != tracks[j]
        },
{
    let track = tl.playhead.track;
    if let Some(i) = tl.track_position(track) {
        let t = tl.tracks@[i];
        if let Some(k) = t.covering(tl.playhead.frame) {
            if let Some(g) = t.clips@[k].group {
                a_scope_is_a_set_in_order(
                    seq![track] + member_tracks(tl.tracks@, g, tl.tracks@.len()),
                );
            }
        }
    }
}

proof fn lemma_member_ids(id: TrackId, clips: Seq<Clip>, g: GroupId, n: nat, t: TrackId)
    requires
        n <= clips.len(),
    ensures
        member_ids(id, clips, g, n).contains(t) <==> t == id && exists|i: int|
            0 <= i < n && (#[trigger] clips[i]).group == Some(g),
    decreases n,
{
    if n > 0 {
        let before = member_ids(id, clips, g, (n - 1) as nat);
        let now = member_ids(id, clips, g, n);
        lemma_member_ids(id, clips, g, (n - 1) as nat, t);
        if clips[n - 1].group == Some(g) {
            assert(now[before.len() as int] == id);
            if before.contains(t) {
                let k = choose|k: int| 0 <= k < before.len() && before[k] == t;
                assert(now[k] == t);
            }
            if now.contains(t) {
                let k = choose|k: int| 0 <= k < now.len() && now[k] == t;
                if k < before.len() {
                    assert(before[k] == t);
                }
            }
        }
    }
}

proof fn lemma_member_tracks(tracks: Seq<Track>, g: GroupId, n: nat, t: TrackId)
    requires
        n <= tracks.len(),
    ensures
        member_tracks(tracks, g, n).contains(t) <==> exists|i: int, k: int|
            0 <= i < n && 0 <= k < tracks[i].clips@.len() && tracks[i].id == t && (
            #[trigger] tracks[i].clips@[k]).group == Some(g),
    decreases n,
{
    if n > 0 {
        let before = member_tracks(tracks, g, (n - 1) as nat);
        let track = tracks[n - 1];
        let own = member_ids(track.id, track.clips@, g, track.clips@.len());
        let now = before + own;
        lemma_member_tracks(tracks, g, (n - 1) as nat, t);
        lemma_member_ids(track.id, track.clips@, g, track.clips@.len(), t);
        if before.contains(t) {
            let k = choose|k: int| 0 <= k < before.len() && before[k] == t;
            assert(now[k] == t);
        }
        if own.contains(t) {
            let k = choose|k: int| 0 <= k < own.len() && own[k] == t;
            assert(now[before.len() + k] == t);
            let c = choose|c: int|
                0 <= c < track.clips@.len() && (#[trigger] track.clips@[c]).group == Some(g);
            assert(tracks[n - 1].clips@[c].group == Some(g));
        }
        if now.contains(t) {
            let k = choose|k: int| 0 <= k < now.len() && now[k] == t;
            if k < before.len() {
                assert(before[k] == t);
            } else {
                assert(own[k - before.len()] == t);
            }
        }
    }
}

/// An object covers the clip under the playhead: `inner` exactly its frames,
/// and `a clip` also the overlaps at its ends, each of which lies half before
/// its cut. All stay on the focused track but `a track`, which reaches every
/// track that holds a member of the clip's group.
pub proof fn an_object_covers_the_clip_under_the_playhead(tl: Timeline, i: int, k: int)
    requires
        tl.wf(),
        0 <= i < tl.tracks@.len(),
        tl.tracks@[i].id == tl.playhead.track,
        0 <= k < tl.tracks@[i].clips@.len(),
        tl.tracks@[i].clips@[k].start.0 <= tl.playhead.frame.0,
        tl.playhead.frame.0 < tl.tracks@[i].clips@[k].start.0 + tl.tracks@[i].clips@[k].duration.0,
    ensures
        ({
            let track = tl.tracks@[i];
            let clip = track.clips@[k];
            let focus = seq![tl.playhead.track];
            let end = clip.start.0 + clip.duration.0;
            let is_clip = |r: TimeRange| r.start == clip.start && r.end.0 == end;
            &&& object_extent(TextObject::InnerClip, tl) matches Extent::Covers(r, on) && is_clip(r)
                && on == focus
            &&& object_extent(TextObject::InnerTrack, tl) matches Extent::Covers(r, on) && is_clip(
                r,
            ) && on == focus
            &&& object_extent(TextObject::AClip, tl) matches Extent::Covers(r, on) && {
                &&& on == focus
                &&& r.start.0 == clip.start.0 - (match track.attached_transition(k) {
                    Some(t) => t.duration.0 as int / 2,
                    None => 0,
                })
                &&& r.end.0 == end + (match track.attached_transition(k + 1) {
                    Some(t) => t.duration.0 - t.duration.0 as int / 2,
                    None => 0,
                })
            }
            &&& object_extent(TextObject::ATrack, tl) matches Extent::Covers(r, on) && {
                &&& is_clip(r)
                &&& clip.group is None ==> on == focus
                &&& clip.group matches Some(g) ==> forall|t: TrackId|
                    #[trigger] on.contains(t) <==> t == tl.playhead.track || exists|
                        a: int,
                        b: int,
                    |
                        0 <= a < tl.tracks@.len() && 0 <= b < tl.tracks@[a].clips@.len()
                            && tl.tracks@[a].id == t && (
                        #[trigger] tl.tracks@[a].clips@[b]).group == Some(g)
            }
        }),
{
    let track = tl.tracks@[i];
    let clip = track.clips@[k];
    tl.lemma_position(i);
    assert(track.wf());
    assert(clip.wf());
    assert(clip.covers(tl.playhead.frame));
    let j = track.covering(tl.playhead.frame)->Some_0;
    track.lemma_covering_unique(tl.playhead.frame, j, k);
    if track.attached_transition(k) is Some {
        assert(track.clips@[k - 1].wf());
    }
    if track.attached_transition(k + 1) is Some {
        assert(track.clips@[k + 1].wf());
    }
    if let Some(g) = clip.group {
        let all = seq![tl.playhead.track] + member_tracks(tl.tracks@, g, tl.tracks@.len());
        a_scope_is_a_set_in_order(all);
        assert forall|t: TrackId| #[trigger] first_occurrences(all).contains(t) <==> t
            == tl.playhead.track || exists|a: int, b: int|
            0 <= a < tl.tracks@.len() && 0 <= b < tl.tracks@[a].clips@.len() && tl.tracks@[a].id
                == t && (#[trigger] tl.tracks@[a].clips@[b]).group == Some(g) by {
            let members = member_tracks(tl.tracks@, g, tl.tracks@.len());
            lemma_member_tracks(tl.tracks@, g, tl.tracks@.len(), t);
            assert(all[0] == tl.playhead.track);
            if members.contains(t) {
                let m = choose|m: int| 0 <= m < members.len() && members[m] == t;
                assert(all[m + 1] == t);
            }
            if all.contains(t) {
                let m = choose|m: int| 0 <= m < all.len() && all[m] == t;
                if m > 0 {
                    assert(members[m - 1] == t);
                }
            }
        }
    }
}

/// A selection is what was selected, on the focused track; without one, and
/// without a clip, an object is refused.
pub proof fn an_object_without_its_clip_is_refused(tl: Timeline, range: TimeRange, o: TextObject)
    requires
        tl.wf(),
        !(o is InnerSegment),
        forall|i: int, k: int|
            0 <= i < tl.tracks@.len() && tl.tracks@[i].id == tl.playhead.track && 0 <= k
                < tl.tracks@[i].clips@.len() ==> !(#[trigger] tl.tracks@[i].clips@[k]).covers(
                tl.playhead.frame,
            ),
    ensures
        object_extent(TextObject::InnerSegment(Some(range)), tl) == Extent::Covers(
            range,
            seq![tl.playhead.track],
        ),
        object_extent(TextObject::InnerSegment(None), tl) == Extent::Refused(Refusal::NoSegment),
        object_extent(o, tl) is Refused,
{
}

} // verus!
