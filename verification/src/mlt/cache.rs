//! A bounded cache of decoded preview frames.
//!
//! The bound is in bytes, because a frame is anywhere from a few kilobytes to
//! several megabytes. Eviction is oldest first: the run just decoded is the
//! run about to be walked. Entries carry the scale they were decoded at, so a
//! thumbnail never displaces the preview.
use vstd::prelude::*;
use std::collections::VecDeque;

use crate::frames::PreviewScale;
use crate::frames::VideoFrame;
use crate::model::Frame;

verus! {

/// About a second of full-size pictures.
pub const DEFAULT_BUDGET_BYTES: usize = 100663296;

/// Bytes held by a run of entries.
pub open spec fn total_bytes(s: Seq<(PreviewScale, VideoFrame)>) -> nat
    decreases s.len(),
{
    if s.len() == 0 {
        0
    } else {
        s[0].1.rgba@.len() + total_bytes(s.drop_first())
    }
}

/// What is left once the oldest entries have gone, one by one, until the rest
/// fits the budget.
pub open spec fn within(s: Seq<(PreviewScale, VideoFrame)>, budget: int) -> Seq<
    (PreviewScale, VideoFrame),
>
    decreases s.len(),
{
    if s.len() == 0 || total_bytes(s) <= budget {
        s
    } else {
        within(s.drop_first(), budget)
    }
}

/// Whether an entry is the frame `at` at `scale`.
pub open spec fn is_frame(e: (PreviewScale, VideoFrame), at: Frame, scale: PreviewScale) -> bool {
    e.0 == scale && e.1.position == at
}

/// Frames that have been decoded, oldest first.
#[derive(Debug)]
pub struct FrameCache {
    entries: VecDeque<(PreviewScale, VideoFrame)>,
    bytes: usize,
    budget: usize,
}

proof fn lemma_total_push(s: Seq<(PreviewScale, VideoFrame)>, e: (PreviewScale, VideoFrame))
    ensures
        total_bytes(s.push(e)) == total_bytes(s) + e.1.rgba@.len(),
    decreases s.len(),
{
    if s.len() == 0 {
        assert(s.push(e).drop_first() =~= s);
    } else {
        lemma_total_push(s.drop_first(), e);
        assert(s.push(e).drop_first() =~= s.drop_first().push(e));
        assert(s.push(e)[0] == s[0]);
    }
}

/// Evicting leaves a run of the newest entries, and one that fits is kept
/// whole.
pub proof fn lemma_within(s: Seq<(PreviewScale, VideoFrame)>, budget: int)
    requires
        budget >= 0,
    ensures
        within(s, budget).len() <= s.len(),
        within(s, budget) == s.skip(s.len() - within(s, budget).len()),
        total_bytes(within(s, budget)) <= budget,
    decreases s.len(),
{
    if s.len() == 0 || total_bytes(s) <= budget {
        assert(s.skip(0) =~= s);
    } else {
        lemma_within(s.drop_first(), budget);
        let kept = within(s.drop_first(), budget);
        assert(s.drop_first().skip(s.drop_first().len() - kept.len()) =~= s.skip(
            s.len() - kept.len(),
        ));
    }
}

impl FrameCache {
    /// The entries, oldest first.
    pub closed spec fn entries(self) -> Seq<(PreviewScale, VideoFrame)> {
        self.entries@
    }

    /// The most bytes the entries may hold.
    pub closed spec fn limit(self) -> int {
        self.budget as int
    }

    /// The byte count is that of the entries, it is within the budget, and no
    /// frame is held twice at one scale.
    pub closed spec fn wf(self) -> bool {
        &&& self.bytes == total_bytes(self.entries@)
        &&& total_bytes(self.entries@) <= self.budget
        &&& forall|i: int, j: int|
            0 <= i < j < self.entries@.len() ==> !is_frame(
                #[trigger] self.entries@[j],
                (#[trigger] self.entries@[i]).1.position,
                self.entries@[i].0,
            )
    }

    /// Whether the frame `at` is held at `scale`.
    pub open spec fn holds(self, at: Frame, scale: PreviewScale) -> bool {
        exists|i: int|
            0 <= i < self.entries().len() && is_frame(#[trigger] self.entries()[i], at, scale)
    }

    /// What a well-formed cache holds never exceeds its budget, and holds no
    /// frame twice at one scale.
    pub proof fn bounded_and_without_duplicates(self)
        requires
            self.wf(),
        ensures
            total_bytes(self.entries()) <= self.limit(),
            forall|i: int, j: int|
                0 <= i < j < self.entries().len() ==> !is_frame(
                    #[trigger] self.entries()[j],
                    (#[trigger] self.entries()[i]).1.position,
                    self.entries()[i].0,
                ),
    {
    }

    pub fn with_budget(budget: usize) -> (c: Self)
        ensures
            c.wf(),
            c.entries() == Seq::<(PreviewScale, VideoFrame)>::empty(),
            c.limit() == budget,
    {
        FrameCache { entries: VecDeque::new(), bytes: 0, budget }
    }

    /// Drops everything. A cached frame of an edited timeline is a picture of
    /// a timeline that no longer exists.
    pub fn clear(&mut self)
        requires
            old(self).wf(),
        ensures
            final(self).wf(),
            final(self).entries() == Seq::<(PreviewScale, VideoFrame)>::empty(),
            final(self).limit() == old(self).limit(),
    {
        self.entries.clear();
        self.bytes = 0;
    }

    pub fn len(&self) -> (n: usize)
        ensures
            n == self.entries().len(),
    {
        self.entries.len()
    }

    /// Bytes held.
    pub fn bytes(&self) -> (n: usize)
        requires
            self.wf(),
        ensures
            n == total_bytes(self.entries()),
    {
        self.bytes
    }

    fn find(&self, at: Frame, scale: PreviewScale) -> (found: Option<usize>)
        ensures
            match found {
                Some(i) => i < self.entries@.len() && is_frame(self.entries@[i as int], at, scale),
                None => !self.holds(at, scale),
            },
    {
        let mut i: usize = 0;
        while i < self.entries.len()
            invariant
                i <= self.entries@.len(),
                forall|k: int| 0 <= k < i ==> !is_frame(#[trigger] self.entries@[k], at, scale),
            decreases self.entries@.len() - i,
        {
            let e = &self.entries[i];
            if e.0 == scale && e.1.position == at {
                return Some(i);
            }
            i = i + 1;
        }
        None
    }

    /// The cached frame `at`, if one was decoded at `scale`.
    pub fn get(&self, at: Frame, scale: PreviewScale) -> (found: Option<&VideoFrame>)
        requires
            self.wf(),
        ensures
            match found {
                Some(f) => exists|i: int|
                    0 <= i < self.entries().len() && is_frame(
                        #[trigger] self.entries()[i],
                        at,
                        scale,
                    ) && self.entries()[i].1 == *f,
                None => !self.holds(at, scale),
            },
    {
        match self.find(at, scale) {
            Some(i) => {
                assert(is_frame(self.entries()[i as int], at, scale));
                Some(&self.entries[i].1)
            },
            None => None,
        }
    }

    /// Takes a decoded frame. A frame that is held already, or that is larger
    /// than the whole budget, changes nothing; any other becomes the newest
    /// entry, and the oldest go until the rest fits.
    pub fn insert(&mut self, scale: PreviewScale, frame: VideoFrame)
        requires
            old(self).wf(),
        ensures
            final(self).wf(),
            final(self).limit() == old(self).limit(),
            final(self).entries() == if old(self).holds(frame.position, scale)
                || frame.rgba@.len() > old(self).limit() {
                old(self).entries()
            } else {
                within(old(self).entries().push((scale, frame)), old(self).limit())
            },
    {
        if self.find(frame.position, scale).is_some() {
            proof {
                let at = frame.position;
                let i = choose|i: int|
                    0 <= i < self.entries@.len() && is_frame(#[trigger] self.entries@[i], at, scale);
                assert(is_frame(self.entries()[i], at, scale));
            }
            return ;
        }
        let size: usize = frame.rgba.len();
        if size > self.budget {
            return ;
        }
        let ghost before = self.entries@;
        let ghost grown = before.push((scale, frame));
        proof {
            lemma_total_push(before, (scale, frame));
            lemma_within(grown, self.budget as int);
            assert forall|i: int, j: int| 0 <= i < j < grown.len() implies !is_frame(
                #[trigger] grown[j],
                (#[trigger] grown[i]).1.position,
                grown[i].0,
            ) by {
                if j == before.len() {
                    assert(self.entries()[i] == grown[i]);
                    assert(!is_frame(self.entries()[i], frame.position, scale));
                }
            }
        }
        let mut held: u128 = self.bytes as u128 + size as u128;
        self.entries.push_back((scale, frame));
        while held > self.budget as u128
            invariant
                self.budget == old(self).budget,
                held == total_bytes(self.entries@),
                self.entries@.len() <= grown.len(),
                self.entries@ == grown.skip(grown.len() - self.entries@.len()),
                within(self.entries@, self.budget as int) == within(grown, self.budget as int),
            decreases self.entries@.len(),
        {
            let ghost rest = self.entries@;
            assert(rest.len() > 0);
            match self.entries.pop_front() {
                Some(e) => {
                    held = held - e.1.rgba.len() as u128;
                    assert(self.entries@ =~= rest.drop_first());
                },
                None => {},
            }
        }
        self.bytes = held as usize;
        assert(self.entries@ == within(grown, self.budget as int));
    }
}

impl Default for FrameCache {
    fn default() -> (c: Self)
        ensures
            c.wf(),
            c.entries() == Seq::<(PreviewScale, VideoFrame)>::empty(),
            c.limit() == DEFAULT_BUDGET_BYTES,
    {
        FrameCache::with_budget(DEFAULT_BUDGET_BYTES)
    }
}

/// Inserting is never paid for with the newest entries: what an insert keeps
/// is the newest run that fits, so a frame goes only when every older one has.
pub proof fn eviction_is_oldest_first(
    before: Seq<(PreviewScale, VideoFrame)>,
    e: (PreviewScale, VideoFrame),
    budget: int,
)
    requires
        budget >= 0,
    ensures
        within(before.push(e), budget) == before.push(e).skip(
            before.len() + 1 - within(before.push(e), budget).len(),
        ),
        total_bytes(within(before.push(e), budget)) <= budget,
        total_bytes(before.push(e)) <= budget ==> within(before.push(e), budget) == before.push(e),
{
    lemma_within(before.push(e), budget);
}

/// Evicting takes no more than it must: what is dropped last would not have
/// fitted, so a picture that fits the budget on its own is always kept when it
/// is the newest.
pub proof fn eviction_takes_no_more_than_it_must(
    s: Seq<(PreviewScale, VideoFrame)>,
    budget: int,
)
    requires
        budget >= 0,
    ensures
        within(s, budget).len() < s.len() ==> total_bytes(
            s.skip(s.len() - within(s, budget).len() - 1),
        ) > budget,
        s.len() > 0 && s.last().1.rgba@.len() <= budget ==> within(s, budget).len() > 0 && within(
            s,
            budget,
        ).last() == s.last(),
    decreases s.len(),
{
    lemma_within(s, budget);
    if s.len() == 0 || total_bytes(s) <= budget {
    } else {
        let rest = s.drop_first();
        eviction_takes_no_more_than_it_must(rest, budget);
        lemma_within(rest, budget);
        let kept = within(s, budget).len();
        if kept == rest.len() {
            assert(s.skip(0) =~= s);
        } else {
            assert(rest.skip(rest.len() - kept - 1) =~= s.skip(s.len() - kept - 1));
        }
        if s.len() == 1 {
            assert(rest =~= Seq::<(PreviewScale, VideoFrame)>::empty());
            assert(total_bytes(rest) == 0);
        }
    }
}

/// The bytes of a run are those of its pictures.
pub proof fn bytes_are_those_of_the_pictures(
    a: Seq<(PreviewScale, VideoFrame)>,
    e: (PreviewScale, VideoFrame),
)
    ensures
        total_bytes(Seq::<(PreviewScale, VideoFrame)>::empty()) == 0,
        total_bytes(a.push(e)) == total_bytes(a) + e.1.rgba@.len(),
{
    lemma_total_push(a, e);
}

/// A picture is held exactly where an entry has its position and its scale.
pub proof fn a_held_picture_has_an_entry(cache: FrameCache, i: int, at: Frame, scale: PreviewScale)
    ensures
        0 <= i < cache.entries().len() && cache.entries()[i].0 == scale
            && cache.entries()[i].1.position == at ==> cache.holds(at, scale),
        cache.entries().len() == 0 ==> !cache.holds(at, scale),
{
    if 0 <= i < cache.entries().len() && cache.entries()[i].0 == scale
        && cache.entries()[i].1.position == at {
        assert(is_frame(cache.entries()[i], at, scale));
    }
}

} // verus!
