//! Turning one projection into another with the fewest kinds of edit a
//! playlist has: insert, remove and update.
//!
//! Entries are aligned by identity: a clip by its id, an overlap by the clip
//! it leads into, and a blank only by position.
use vstd::prelude::*;

use crate::mlt::projection::Entry;
use crate::mlt::projection::EntryView;
use crate::mlt::projection::Projection;
use crate::mlt::projection::entries_view;
use crate::model::ClipId;

verus! {

/// One edit of a playlist.
#[derive(Debug, PartialEq, Eq)]
pub enum TrackOp {
    Insert { index: usize, entry: Entry },
    Remove { index: usize },
    Update { index: usize, entry: Entry },
}

/// The contents of a [`TrackOp`].
pub enum OpView {
    Insert(int, EntryView),
    Remove(int),
    Update(int, EntryView),
}

impl View for TrackOp {
    type V = OpView;

    open spec fn view(&self) -> OpView {
        match self {
            TrackOp::Insert { index, entry } => OpView::Insert(*index as int, entry@),
            TrackOp::Remove { index } => OpView::Remove(*index as int),
            TrackOp::Update { index, entry } => OpView::Update(*index as int, entry@),
        }
    }
}

/// The contents of a list of edits.
pub open spec fn ops_view(v: Seq<TrackOp>) -> Seq<OpView> {
    Seq::new(v.len(), |i: int| v[i]@)
}

/// The edits of one track.
#[derive(Debug, PartialEq, Eq)]
pub struct TrackPatch {
    pub track_index: usize,
    pub ops: Vec<TrackOp>,
}

/// The contents of a [`TrackPatch`].
pub struct TrackPatchView {
    pub track_index: int,
    pub ops: Seq<OpView>,
}

impl View for TrackPatch {
    type V = TrackPatchView;

    open spec fn view(&self) -> TrackPatchView {
        TrackPatchView { track_index: self.track_index as int, ops: ops_view(self.ops@) }
    }
}

/// The contents of a list of track patches.
pub open spec fn patches_view(v: Seq<TrackPatch>) -> Seq<TrackPatchView> {
    Seq::new(v.len(), |i: int| v[i]@)
}

/// What it takes to bring the graph up to date.
#[derive(Debug, PartialEq, Eq)]
pub enum Patch {
    Nothing,
    Rebuild,
    Tracks(Vec<TrackPatch>),
}

/// What an entry is recognised by.
#[derive(Clone, Copy, Debug, PartialEq, Eq, Structural)]
pub enum Key {
    Blank,
    Clip(ClipId),
    Transition(ClipId),
}

/// What an entry is recognised by.
pub open spec fn key_of(e: EntryView) -> Key {
    match e {
        EntryView::Blank(_) => Key::Blank,
        EntryView::Clip(c) => Key::Clip(c.clip),
        EntryView::Transition(t) => Key::Transition(t.clip),
    }
}

fn key(e: &Entry) -> (k: Key)
    ensures
        k == key_of(e@),
{
    match (e.clip_id(), e.is_transition()) {
        (Some(id), true) => Key::Transition(id),
        (Some(id), false) => Key::Clip(id),
        (None, _) => Key::Blank,
    }
}

/// The first place in `s` with the key `k`; the length of `s` where there is
/// none.
pub open spec fn first_with(s: Seq<EntryView>, k: Key) -> nat
    decreases s.len(),
{
    if s.len() == 0 {
        0
    } else if key_of(s[0]) == k {
        0
    } else {
        1 + first_with(s.drop_first(), k)
    }
}

/// How many entries of `old` go away before the one that becomes an entry
/// with the key `k`; the length of `old` where none does. A blank is never
/// looked for further along.
pub open spec fn gone_before(old: Seq<EntryView>, k: Key) -> nat {
    if k == Key::Blank {
        if old.len() > 0 && key_of(old[0]) == Key::Blank {
            0
        } else {
            old.len()
        }
    } else {
        first_with(old, k)
    }
}

/// `n` removals at the same place.
pub open spec fn removals(n: nat, at: nat) -> Seq<OpView> {
    Seq::new(n, |i: int| OpView::Remove(at as int))
}

/// The edits that turn `old` into `new`, where `at` entries come before both.
///
/// An entry that is still there takes the place of its older self, and
/// whatever stood before it is removed; an entry that is not is inserted; what
/// is left over at the end is removed.
pub open spec fn script(old: Seq<EntryView>, new: Seq<EntryView>, at: nat) -> Seq<OpView>
    decreases new.len(),
{
    if new.len() == 0 {
        removals(old.len(), at)
    } else {
        let gone = gone_before(old, key_of(new[0]));
        if gone < old.len() {
            removals(gone, at) + (if old[gone as int] == new[0] {
                Seq::empty()
            } else {
                seq![OpView::Update(at as int, new[0])]
            }) + script(old.skip(gone as int + 1), new.drop_first(), at + 1)
        } else {
            seq![OpView::Insert(at as int, new[0])] + script(old, new.drop_first(), at + 1)
        }
    }
}

/// One edit applied to a playlist. An insert past the end appends, and an
/// edit of an entry that is not there does nothing.
pub open spec fn apply_op(s: Seq<EntryView>, op: OpView) -> Seq<EntryView> {
    match op {
        OpView::Insert(index, entry) => s.insert(
            if index < s.len() { index } else { s.len() as int },
            entry,
        ),
        OpView::Remove(index) => if 0 <= index < s.len() {
            s.remove(index)
        } else {
            s
        },
        OpView::Update(index, entry) => if 0 <= index < s.len() {
            s.update(index, entry)
        } else {
            s
        },
    }
}

/// A list of edits applied in order.
pub open spec fn apply_all(s: Seq<EntryView>, ops: Seq<OpView>) -> Seq<EntryView>
    decreases ops.len(),
{
    if ops.len() == 0 {
        s
    } else {
        apply_all(apply_op(s, ops[0]), ops.drop_first())
    }
}

/// Applying two lists one after the other is applying them as one.
pub proof fn lemma_apply_concat(s: Seq<EntryView>, a: Seq<OpView>, b: Seq<OpView>)
    ensures
        apply_all(s, a + b) == apply_all(apply_all(s, a), b),
    decreases a.len(),
{
    if a.len() == 0 {
        assert(a + b =~= b);
    } else {
        assert((a + b).drop_first() =~= a.drop_first() + b);
        lemma_apply_concat(apply_op(s, a[0]), a.drop_first(), b);
    }
}

proof fn lemma_apply_removals(before: Seq<EntryView>, rest: Seq<EntryView>, n: nat)
    requires
        n <= rest.len(),
    ensures
        apply_all(before + rest, removals(n, before.len())) == before + rest.skip(n as int),
    decreases n,
{
    if n == 0 {
        assert(rest.skip(0) =~= rest);
    } else {
        let ops = removals(n, before.len());
        assert(ops.drop_first() =~= removals((n - 1) as nat, before.len()));
        assert((before + rest).remove(before.len() as int) =~= before + rest.drop_first());
        lemma_apply_removals(before, rest.drop_first(), (n - 1) as nat);
        assert(rest.drop_first().skip(n - 1) =~= rest.skip(n as int));
    }
}

proof fn lemma_first_with(s: Seq<EntryView>, k: Key)
    ensures
        first_with(s, k) <= s.len(),
        first_with(s, k) < s.len() ==> key_of(s[first_with(s, k) as int]) == k,
        forall|i: int| 0 <= i < first_with(s, k) ==> key_of(#[trigger] s[i]) != k,
    decreases s.len(),
{
    if s.len() > 0 && key_of(s[0]) != k {
        lemma_first_with(s.drop_first(), k);
        assert forall|i: int| 0 <= i < first_with(s, k) implies key_of(#[trigger] s[i]) != k by {
            if i > 0 {
                assert(s[i] == s.drop_first()[i - 1]);
            }
        }
    }
}

proof fn lemma_script_applies(
    before: Seq<EntryView>,
    old: Seq<EntryView>,
    new: Seq<EntryView>,
)
    ensures
        apply_all(before + old, script(old, new, before.len())) == before + new,
    decreases new.len(),
{
    let at = before.len();
    if new.len() == 0 {
        lemma_apply_removals(before, old, old.len());
        assert(before + old.skip(old.len() as int) =~= before + new);
    } else {
        let gone = gone_before(old, key_of(new[0]));
        let tail = new.drop_first();
        let grown = before.push(new[0]);
        assert(grown + tail =~= before + new);
        if gone < old.len() {
            let update = if old[gone as int] == new[0] {
                Seq::empty()
            } else {
                seq![OpView::Update(at as int, new[0])]
            };
            let rest = script(old.skip(gone as int + 1), tail, at + 1);
            lemma_apply_removals(before, old, gone);
            lemma_apply_concat(before + old, removals(gone, at) + update, rest);
            lemma_apply_concat(before + old, removals(gone, at), update);
            let shifted = before + old.skip(gone as int);
            assert(shifted[at as int] == old[gone as int]);
            assert(grown + old.skip(gone as int + 1) =~= shifted.update(at as int, new[0]));
            if old[gone as int] == new[0] {
                assert(shifted =~= grown + old.skip(gone as int + 1));
            } else {
                assert(update.drop_first() =~= Seq::<OpView>::empty());
                reveal_with_fuel(apply_all, 2);
                assert(apply_all(shifted, update) == shifted.update(at as int, new[0]));
            }
            lemma_script_applies(grown, old.skip(gone as int + 1), tail);
        } else {
            let insert = seq![OpView::Insert(at as int, new[0])];
            let rest = script(old, tail, at + 1);
            lemma_apply_concat(before + old, insert, rest);
            assert((before + old).insert(at as int, new[0]) =~= grown + old);
            assert(insert.drop_first() =~= Seq::<OpView>::empty());
            reveal_with_fuel(apply_all, 2);
            assert(apply_all(before + old, insert) == grown + old);
            lemma_script_applies(grown, old, tail);
        }
    }
}

/// A patched playlist is the rebuilt one: applying the edits between two
/// playlists to the first gives the second.
pub proof fn patching_reproduces_the_rebuilt_playlist(old: Seq<EntryView>, new: Seq<EntryView>)
    ensures
        apply_all(old, script(old, new, 0)) == new,
{
    let none = Seq::<EntryView>::empty();
    lemma_script_applies(none, old, new);
    assert(none + old =~= old);
    assert(none + new =~= new);
}

proof fn lemma_script_of_same(s: Seq<EntryView>, at: nat)
    ensures
        script(s, s, at) == Seq::<OpView>::empty(),
    decreases s.len(),
{
    if s.len() == 0 {
        assert(removals(0, at) =~= Seq::<OpView>::empty());
    } else {
        lemma_script_of_same(s.drop_first(), at + 1);
        assert(s.skip(1) =~= s.drop_first());
        assert(gone_before(s, key_of(s[0])) == 0);
        assert(removals(0, at) + Seq::<OpView>::empty() + Seq::<OpView>::empty() =~= Seq::<
            OpView,
        >::empty());
    }
}

/// There is nothing to do exactly when nothing changed.
pub proof fn no_edits_exactly_when_unchanged(old: Seq<EntryView>, new: Seq<EntryView>)
    ensures
        script(old, new, 0).len() == 0 <==> old == new,
{
    if old == new {
        lemma_script_of_same(old, 0);
    }
    if script(old, new, 0).len() == 0 {
        patching_reproduces_the_rebuilt_playlist(old, new);
    }
}

fn push_op(v: &mut Vec<TrackOp>, op: TrackOp)
    ensures
        ops_view(final(v)@) == ops_view(old(v)@).push(op@),
{
    v.push(op);
    assert(ops_view(v@) =~= ops_view(old(v)@).push(op@));
}

/// The first place at or after `from` with the key `k`; the length where
/// there is none.
fn find_key(entries: &Vec<Entry>, from: usize, k: Key) -> (i: usize)
    requires
        from <= entries@.len(),
    ensures
        i == from + first_with(entries_view(entries@).skip(from as int), k),
        from <= i <= entries@.len(),
{
    let ghost all = entries_view(entries@);
    let mut i: usize = from;
    while i < entries.len() && key(&entries[i]) != k
        invariant
            all == entries_view(entries@),
            from <= i <= entries@.len(),
            from + first_with(all.skip(from as int), k) == i + first_with(all.skip(i as int), k),
        decreases entries@.len() - i,
    {
        assert(all.skip(i as int).drop_first() =~= all.skip(i as int + 1));
        i = i + 1;
    }
    proof {
        if i < entries@.len() {
            assert(all.skip(i as int)[0] == all[i as int]);
        }
    }
    i
}

/// The edits that turn `old` into `new`.
pub fn diff_entries(old: &Vec<Entry>, new: &Vec<Entry>) -> (ops: Vec<TrackOp>)
    ensures
        ops_view(ops@) == script(entries_view(old@), entries_view(new@), 0),
{
    let ghost from = entries_view(old@);
    let ghost to = entries_view(new@);
    let mut ops: Vec<TrackOp> = Vec::new();
    let mut i: usize = 0;
    // Entries of `old` that have been matched or removed.
    let mut j: usize = 0;
    proof {
        assert(from.skip(0) =~= from);
        assert(to.skip(0) =~= to);
        assert(ops_view(ops@) + script(from, to, 0) =~= script(from, to, 0));
    }
    while i < new.len()
        invariant
            from == entries_view(old@),
            to == entries_view(new@),
            i <= new@.len(),
            j <= old@.len(),
            ops_view(ops@) + script(from.skip(j as int), to.skip(i as int), i as nat) == script(
                from,
                to,
                0,
            ),
        decreases new@.len() - i,
    {
        let k = key(&new[i]);
        let ghost rest = from.skip(j as int);
        let ghost wanted = to.skip(i as int);
        let ghost so_far = ops_view(ops@);
        assert(wanted[0] == new@[i as int]@);
        assert(wanted.drop_first() =~= to.skip(i as int + 1));
        let found: usize = if k == Key::Blank {
            if j < old.len() && key(&old[j]) == Key::Blank {
                j
            } else {
                old.len()
            }
        } else {
            find_key(old, j, k)
        };
        proof {
            if j < old@.len() {
                assert(rest[0] == old@[j as int]@);
            }
        }
        assert(found == j + gone_before(rest, k));
        if found < old.len() {
            let ghost gone = (found - j) as nat;
            let mut r: usize = j;
            while r < found
                invariant
                    j <= r <= found,
                    ops_view(ops@) == so_far + removals((r - j) as nat, i as nat),
                decreases found - r,
            {
                push_op(&mut ops, TrackOp::Remove { index: i });
                r = r + 1;
                assert(ops_view(ops@) =~= so_far + removals((r - j) as nat, i as nat));
            }
            assert(rest[gone as int] == old@[found as int]@);
            let ghost update = if rest[gone as int] == wanted[0] {
                Seq::empty()
            } else {
                seq![OpView::Update(i as int, wanted[0])]
            };
            if !old[found].same(&new[i]) {
                push_op(&mut ops, TrackOp::Update { index: i, entry: new[i].clone() });
            }
            proof {
                assert(ops_view(ops@) =~= so_far + removals(gone, i as nat) + update);
                assert(rest.skip(gone as int + 1) =~= from.skip(found as int + 1));
                let tail = script(
                    from.skip(found as int + 1),
                    to.skip(i as int + 1),
                    (i + 1) as nat,
                );
                assert(script(rest, wanted, i as nat) == removals(gone, i as nat) + update + tail);
                assert(so_far + (removals(gone, i as nat) + update + tail) =~= so_far + removals(
                    gone,
                    i as nat,
                ) + update + tail);
            }
            j = found + 1;
        } else {
            push_op(&mut ops, TrackOp::Insert { index: i, entry: new[i].clone() });
            proof {
                let insert = seq![OpView::Insert(i as int, wanted[0])];
                let tail = script(rest, to.skip(i as int + 1), (i + 1) as nat);
                assert(script(rest, wanted, i as nat) == insert + tail);
                assert(so_far + (insert + tail) =~= ops_view(ops@) + tail);
            }
        }
        i = i + 1;
    }
    let ghost so_far = ops_view(ops@);
    let ghost left = (old@.len() - j) as nat;
    assert(from.skip(j as int).len() == left);
    assert(to.skip(i as int).len() == 0);
    let mut r: usize = j;
    while r < old.len()
        invariant
            j <= r <= old@.len(),
            i == new@.len(),
            ops_view(ops@) == so_far + removals((r - j) as nat, i as nat),
        decreases old@.len() - r,
    {
        push_op(&mut ops, TrackOp::Remove { index: new.len() });
        r = r + 1;
        assert(ops_view(ops@) =~= so_far + removals((r - j) as nat, i as nat));
    }
    ops
}

/// Whether some track's mute differs.
pub open spec fn mute_differs(old: Projection, new: Projection) -> bool {
    exists|i: int|
        0 <= i < old.tracks@.len() && (#[trigger] old.tracks@[i]).muted != new.tracks@[i].muted
}

/// The edits of the first `n` tracks; a track without edits is left out.
pub open spec fn track_scripts(old: Projection, new: Projection, n: nat) -> Seq<TrackPatchView>
    decreases n,
{
    if n == 0 {
        Seq::empty()
    } else {
        let before = track_scripts(old, new, (n - 1) as nat);
        let ops = script(old.tracks@[n - 1]@.entries, new.tracks@[n - 1]@.entries, 0);
        if ops.len() == 0 {
            before
        } else {
            before.push(TrackPatchView { track_index: n - 1, ops })
        }
    }
}

/// What it takes to turn the graph of `old` into that of `new`. A change of
/// the profile, of the tracks or of a mute has no playlist edit, so the graph
/// is built again.
pub fn diff(old: &Projection, new: &Projection) -> (patch: Patch)
    ensures
        match patch {
            Patch::Rebuild => !old.shape_matches(*new) || mute_differs(*old, *new),
            Patch::Nothing => {
                &&& old.shape_matches(*new)
                &&& !mute_differs(*old, *new)
                &&& track_scripts(*old, *new, old.tracks@.len()).len() == 0
            },
            Patch::Tracks(patches) => {
                &&& old.shape_matches(*new)
                &&& !mute_differs(*old, *new)
                &&& patches@.len() > 0
                &&& patches_view(patches@) == track_scripts(*old, *new, old.tracks@.len())
            },
        },
{
    if !old.same_shape(new) {
        return Patch::Rebuild;
    }
    let mut patches: Vec<TrackPatch> = Vec::new();
    assert(patches_view(patches@) =~= track_scripts(*old, *new, 0));
    let mut i: usize = 0;
    while i < old.tracks.len()
        invariant
            old.shape_matches(*new),
            i <= old.tracks@.len(),
            forall|k: int|
                0 <= k < i ==> (#[trigger] old.tracks@[k]).muted == new.tracks@[k].muted,
            patches_view(patches@) == track_scripts(*old, *new, i as nat),
        decreases old.tracks@.len() - i,
    {
        let o = &old.tracks[i];
        let n = &new.tracks[i];
        if o.muted != n.muted {
            assert(old.tracks@[i as int].muted != new.tracks@[i as int].muted);
            return Patch::Rebuild;
        }
        let ops = diff_entries(&o.entries, &n.entries);
        if !ops.is_empty() {
            let ghost held = patches_view(patches@);
            patches.push(TrackPatch { track_index: i, ops });
            assert(patches_view(patches@) =~= held.push(patches@.last()@));
        }
        i = i + 1;
    }
    if patches.is_empty() {
        assert(patches_view(patches@).len() == 0);
        Patch::Nothing
    } else {
        Patch::Tracks(patches)
    }
}

/// What a playlist becomes under the patch of its track, if there is one.
pub open spec fn patched(old: Projection, patches: Seq<TrackPatchView>, track: int) -> Seq<
    EntryView,
> {
    if exists|p: int| 0 <= p < patches.len() && (#[trigger] patches[p]).track_index == track {
        let p = choose|p: int|
            0 <= p < patches.len() && (#[trigger] patches[p]).track_index == track;
        apply_all(old.tracks@[track]@.entries, patches[p].ops)
    } else {
        old.tracks@[track]@.entries
    }
}

proof fn lemma_track_scripts(old: Projection, new: Projection, n: nat, track: int)
    requires
        0 <= track,
    ensures
        forall|p: int|
            0 <= p < track_scripts(old, new, n).len() ==> 0 <= (#[trigger] track_scripts(
                old,
                new,
                n,
            )[p]).track_index < n && track_scripts(old, new, n)[p].ops == script(
                old.tracks@[track_scripts(old, new, n)[p].track_index]@.entries,
                new.tracks@[track_scripts(old, new, n)[p].track_index]@.entries,
                0,
            ),
        track < n && script(old.tracks@[track]@.entries, new.tracks@[track]@.entries, 0).len() != 0
            ==> exists|p: int|
            0 <= p < track_scripts(old, new, n).len() && (#[trigger] track_scripts(
                old,
                new,
                n,
            )[p]).track_index == track,
    decreases n,
{
    if n > 0 {
        let m = (n - 1) as nat;
        lemma_track_scripts(old, new, m, track);
        let before = track_scripts(old, new, m);
        let now = track_scripts(old, new, n);
        let ops = script(old.tracks@[track]@.entries, new.tracks@[track]@.entries, 0);
        if track < n && ops.len() != 0 {
            if track < m {
                let p = choose|p: int|
                    0 <= p < before.len() && (#[trigger] before[p]).track_index == track;
                assert(now[p].track_index == track);
            } else {
                assert(now.last().track_index == track);
            }
        }
    }
}

/// Patching every track gives what rebuilding every track would: the two ways
/// to bring the graph up to date never differ.
pub proof fn a_patch_equals_a_rebuild(old: Projection, new: Projection, track: int)
    requires
        0 <= track < old.tracks@.len(),
    ensures
        patched(old, track_scripts(old, new, old.tracks@.len()), track)
            == new.tracks@[track]@.entries,
{
    let n = old.tracks@.len();
    let patches = track_scripts(old, new, n);
    let a = old.tracks@[track]@.entries;
    let b = new.tracks@[track]@.entries;
    lemma_track_scripts(old, new, n, track);
    if exists|p: int| 0 <= p < patches.len() && (#[trigger] patches[p]).track_index == track {
        let p = choose|p: int|
            0 <= p < patches.len() && (#[trigger] patches[p]).track_index == track;
        assert(patches[p].ops == script(a, b, 0));
        patching_reproduces_the_rebuilt_playlist(a, b);
    } else {
        no_edits_exactly_when_unchanged(a, b);
    }
}

/// Applies edits to a playlist in order.
pub fn apply_ops(entries: &mut Vec<Entry>, ops: &[TrackOp])
    ensures
        entries_view(final(entries)@) == apply_all(entries_view(old(entries)@), ops_view(ops@)),
{
    let ghost all = ops_view(ops@);
    let ghost first = entries_view(entries@);
    let mut i: usize = 0;
    assert(all.skip(0) =~= all);
    while i < ops.len()
        invariant
            i <= ops@.len(),
            all == ops_view(ops@),
            apply_all(entries_view(entries@), all.skip(i as int)) == apply_all(first, all),
        decreases ops@.len() - i,
    {
        let ghost held = entries_view(entries@);
        let ghost rest = all.skip(i as int);
        assert(rest[0] == ops@[i as int]@);
        assert(rest.drop_first() =~= all.skip(i as int + 1));
        match &ops[i] {
            TrackOp::Insert { index, entry } => {
                let n: usize = entries.len();
                let at: usize = if *index < n { *index } else { n };
                entries.insert(at, entry.clone());
                assert(entries_view(entries@) =~= held.insert(at as int, entry@));
            },
            TrackOp::Remove { index } => {
                if *index < entries.len() {
                    entries.remove(*index);
                    assert(entries_view(entries@) =~= held.remove(*index as int));
                }
            },
            TrackOp::Update { index, entry } => {
                if *index < entries.len() {
                    entries.set(*index, entry.clone());
                    assert(entries_view(entries@) =~= held.update(*index as int, entry@));
                }
            },
        }
        assert(entries_view(entries@) == apply_op(held, rest[0]));
        i = i + 1;
    }
    assert(all.skip(i as int).len() == 0);
}

} // verus!
