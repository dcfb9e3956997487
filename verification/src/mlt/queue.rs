//! Pictures between the thread that decodes them and the one that shows them.
use vstd::prelude::*;

use crate::frames::Picture;
use crate::frames::VideoFrame;
use crate::frames::pictures;

verus! {

/// The most pictures that wait while playing forwards.
pub const FORWARD_LIMIT: usize = 8;

/// The most pictures that wait while playing backwards.
pub const BACKWARD_LIMIT: usize = 16;

/// The pictures that wait, the next one first.
#[derive(Debug)]
pub struct PreviewQueue {
    frames: Vec<VideoFrame>,
}

impl View for PreviewQueue {
    type V = Seq<Picture>;

    closed spec fn view(&self) -> Seq<Picture> {
        pictures(self.frames@)
    }
}

/// The queue after a picture that was just played: a queue that nobody empties
/// loses its oldest picture, so that what is shown stays current.
pub open spec fn after_played(q: Seq<Picture>, p: Picture) -> Seq<Picture> {
    if q.len() >= FORWARD_LIMIT {
        q.skip(1).push(p)
    } else {
        q.push(p)
    }
}

/// The queue after a picture of a backwards pass: a full queue loses the
/// pictures that are furthest from being due.
pub open spec fn after_scrubbed(q: Seq<Picture>, p: Picture) -> Seq<Picture> {
    if q.len() >= BACKWARD_LIMIT {
        q.take(BACKWARD_LIMIT - 1).push(p)
    } else {
        q.push(p)
    }
}

/// Where a picture stands in a list.
pub open spec fn found_at(window: Seq<Picture>, at: int) -> Option<int>
    decreases window.len(),
{
    if window.len() == 0 {
        None
    } else {
        match found_at(window.drop_last(), at) {
            Some(i) => Some(i),
            None => if window.last().position.0 == at {
                Some(window.len() - 1)
            } else {
                None
            },
        }
    }
}

/// The queue after the pictures `low..=high` of a window, the highest first.
pub open spec fn after_range(q: Seq<Picture>, window: Seq<Picture>, low: int, high: int) -> Seq<
    Picture,
>
    decreases high - low + 1,
{
    if high < low {
        q
    } else {
        after_range(
            match found_at(window, high) {
                Some(i) => after_scrubbed(q, window[i]),
                None => q,
            },
            window,
            low,
            high - 1,
        )
    }
}

/// The lowest picture that a window holds in `low..=high`.
pub open spec fn lowest_held(window: Seq<Picture>, low: int, high: int) -> Option<int>
    decreases high - low + 1,
{
    if high < low {
        None
    } else if found_at(window, low) is Some {
        Some(low)
    } else {
        lowest_held(window, low + 1, high)
    }
}

pub proof fn lemma_found(window: Seq<Picture>, at: int)
    ensures
        match found_at(window, at) {
            Some(i) => 0 <= i < window.len() && window[i].position.0 == at,
            None => forall|i: int|
                0 <= i < window.len() ==> (#[trigger] window[i]).position.0 != at,
        },
    decreases window.len(),
{
    if window.len() > 0 {
        let before = window.drop_last();
        lemma_found(before, at);
        assert forall|i: int| found_at(window, at) is None && 0 <= i < window.len() implies (
        #[trigger] window[i]).position.0 != at by {
            if i < before.len() {
                assert(before[i] == window[i]);
            }
        }
    }
}

pub proof fn lemma_lowest(window: Seq<Picture>, low: int, high: int)
    ensures
        match lowest_held(window, low, high) {
            Some(p) => low <= p <= high && found_at(window, p) is Some,
            None => forall|p: int| low <= p <= high ==> #[trigger] found_at(window, p) is None,
        },
    decreases high - low + 1,
{
    if low <= high && found_at(window, low) is None {
        lemma_lowest(window, low + 1, high);
    }
}

/// However many pictures a pass hands over, the queue holds no more than its
/// limit.
pub proof fn the_queue_is_bounded(q: Seq<Picture>, window: Seq<Picture>, low: int, high: int)
    requires
        q.len() <= BACKWARD_LIMIT,
    ensures
        after_range(q, window, low, high).len() <= BACKWARD_LIMIT,
        forall|p: Picture|
            q.len() <= FORWARD_LIMIT ==> (#[trigger] after_played(q, p)).len() <= FORWARD_LIMIT,
    decreases high - low + 1,
{
    if low <= high {
        let next = match found_at(window, high) {
            Some(i) => after_scrubbed(q, window[i]),
            None => q,
        };
        the_queue_is_bounded(next, window, low, high - 1);
    }
}

/// Where a picture stands in a window.
pub fn find_in(window: &Vec<VideoFrame>, at: u64) -> (r: Option<usize>)
    ensures
        match r {
            Some(i) => found_at(pictures(window@), at as int) == Some(i as int) && i
                < window@.len(),
            None => found_at(pictures(window@), at as int) is None,
        },
{
    let ghost all = pictures(window@);
    let n: usize = window.len();
    let mut i: usize = 0;
    assert(all.take(0) =~= Seq::<Picture>::empty());
    while i < n
        invariant
            i <= n == window@.len(),
            all == pictures(window@),
            found_at(all.take(i as int), at as int) is None,
        decreases n - i,
    {
        proof {
            assert(all.take(i as int + 1).drop_last() =~= all.take(i as int));
            assert(all.take(i as int + 1).last() == window@[i as int]@);
        }
        if window[i].position.0 == at {
            proof {
                lemma_found_prefix(all, i as int + 1, at as int);
            }
            return Some(i);
        }
        i = i + 1;
    }
    assert(all.take(i as int) =~= all);
    None
}

proof fn lemma_found_prefix(window: Seq<Picture>, n: int, at: int)
    requires
        0 <= n <= window.len(),
        found_at(window.take(n), at) is Some,
    ensures
        found_at(window, at) == found_at(window.take(n), at),
    decreases window.len() - n,
{
    if n == window.len() {
        assert(window.take(n) =~= window);
    } else {
        assert(window.take(n + 1).drop_last() =~= window.take(n));
        lemma_found_prefix(window, n + 1, at);
    }
}

impl PreviewQueue {
    pub fn new() -> (q: Self)
        ensures
            q@ == Seq::<Picture>::empty(),
    {
        let q = PreviewQueue { frames: Vec::new() };
        assert(q@ =~= Seq::<Picture>::empty());
        q
    }

    /// Adds a picture that was just played.
    pub fn played(&mut self, frame: VideoFrame)
        ensures
            final(self)@ == after_played(old(self)@, frame@),
    {
        let ghost before = self@;
        if self.frames.len() >= FORWARD_LIMIT {
            let _ = self.frames.remove(0);
            assert(self@ =~= before.skip(1));
        }
        let ghost kept = self@;
        self.frames.push(frame);
        assert(self@ =~= kept.push(frame@));
    }

    fn scrubbed(&mut self, frame: VideoFrame)
        ensures
            final(self)@ == after_scrubbed(old(self)@, frame@),
    {
        let ghost before = self@;
        if self.frames.len() >= BACKWARD_LIMIT {
            self.frames.truncate(BACKWARD_LIMIT - 1);
            assert(self@ =~= before.take(BACKWARD_LIMIT - 1));
        }
        let ghost kept = self@;
        self.frames.push(frame);
        assert(self@ =~= kept.push(frame@));
    }

    /// Takes the next picture.
    pub fn pop(&mut self) -> (f: Option<VideoFrame>)
        ensures
            match f {
                Some(p) => old(self)@.len() > 0 && p@ == old(self)@[0] && final(self)@ == old(
                    self,
                )@.skip(1),
                None => old(self)@.len() == 0 && final(self)@ == old(self)@,
            },
    {
        if self.frames.len() == 0 {
            None
        } else {
            let ghost before = self@;
            let f = self.frames.remove(0);
            assert(self@ =~= before.skip(1));
            Some(f)
        }
    }

    /// Adds the pictures `low..=high` of a window, the highest first, and
    /// returns the lowest of them.
    pub fn push_range(&mut self, window: &Vec<VideoFrame>, low: u64, high: u64) -> (lowest: Option<
        u64,
    >)
        ensures
            final(self)@ == after_range(
                old(self)@,
                pictures(window@),
                low as int,
                high as int,
            ),
            match lowest {
                Some(p) => lowest_held(pictures(window@), low as int, high as int) == Some(
                    p as int,
                ),
                None => lowest_held(pictures(window@), low as int, high as int) is None,
            },
    {
        let ghost all = pictures(window@);
        let ghost goal = after_range(self@, all, low as int, high as int);
        let mut lowest: Option<u64> = None;
        if high < low {
            return None;
        }
        let mut left: u64 = high - low;
        let ghost mut top: int = high as int;
        let mut p: u64 = high;
        let mut done = false;
        assert(lowest_held(all, top + 1, high as int) is None);
        while !done
            invariant
                all == pictures(window@),
                low <= high,
                !done ==> low <= p <= high && top == p && left == p - low,
                done ==> top == low - 1,
                after_range(self@, all, low as int, top) == goal,
                match lowest {
                    Some(l) => lowest_held(all, top + 1, high as int) == Some(l as int),
                    None => lowest_held(all, top + 1, high as int) is None,
                },
            decreases (if done {
                0
            } else {
                left + 1
            }),
        {
            proof {
                assert(lowest_held(all, top, high as int) == (if found_at(all, top) is Some {
                    Some(top)
                } else {
                    lowest_held(all, top + 1, high as int)
                }));
            }
            if let Some(i) = find_in(window, p) {
                let f = window[i].clone();
                assert(f@ == all[i as int]);
                self.scrubbed(f);
                lowest = Some(p);
            }
            proof {
                top = top - 1;
            }
            if p == low {
                done = true;
            } else {
                p = p - 1;
                left = left - 1;
            }
        }
        lowest
    }
}

/// A picture that was played is the last in the queue, behind those that wait
/// in their order; only the oldest goes, and only from a full queue.
pub proof fn a_played_picture_waits_last(q: Seq<Picture>, p: Picture)
    requires
        q.len() <= 8,
    ensures
        after_played(q, p).last() == p,
        q.len() < 8 ==> after_played(q, p).drop_last() == q,
        q.len() == 8 ==> after_played(q, p).drop_last() == q.skip(1),
{
    assert(after_played(q, p).drop_last() =~= if q.len() < 8 {
        q
    } else {
        q.skip(1)
    });
}

/// A picture of a backwards pass is the last in the queue; a full queue loses
/// the one that is furthest from being due, and keeps the rest in order.
pub proof fn a_scrubbed_picture_waits_last(q: Seq<Picture>, p: Picture)
    requires
        q.len() <= 16,
    ensures
        after_scrubbed(q, p).last() == p,
        q.len() < 16 ==> after_scrubbed(q, p).drop_last() == q,
        q.len() == 16 ==> after_scrubbed(q, p).drop_last() == q.drop_last(),
{
    assert(after_scrubbed(q, p).drop_last() =~= if q.len() < 16 {
        q
    } else {
        q.drop_last()
    });
}

/// A picture is found by its position: the first that has it.
pub proof fn a_picture_is_found_by_its_position(window: Seq<Picture>, at: int)
    ensures
        match found_at(window, at) {
            Some(i) => {
                &&& 0 <= i < window.len()
                &&& window[i].position.0 == at
                &&& forall|k: int| 0 <= k < i ==> (#[trigger] window[k]).position.0 != at
            },
            None => forall|k: int|
                0 <= k < window.len() ==> (#[trigger] window[k]).position.0 != at,
        },
    decreases window.len(),
{
    if window.len() > 0 {
        let front = window.drop_last();
        a_picture_is_found_by_its_position(front, at);
        match found_at(front, at) {
            Some(i) => {
                assert forall|k: int| 0 <= k < i implies (#[trigger] window[k]).position.0
                    != at by {
                    assert(front[k] == window[k]);
                }
            },
            None => {
                assert forall|k: int| 0 <= k < front.len() implies (#[trigger] window[k]).position.0
                    != at by {
                    assert(front[k] == window[k]);
                }
            },
        }
    }
}

/// The lowest picture of a range is the lowest that is there.
pub proof fn the_lowest_picture_is_the_lowest(window: Seq<Picture>, low: int, high: int)
    ensures
        match lowest_held(window, low, high) {
            Some(p) => {
                &&& low <= p <= high
                &&& exists|i: int| 0 <= i < window.len() && (#[trigger] window[i]).position.0 == p
                &&& forall|i: int|
                    0 <= i < window.len() && low <= (#[trigger] window[i]).position.0 <= high
                        ==> p <= window[i].position.0
            },
            None => forall|i: int|
                0 <= i < window.len() ==> !(low <= (#[trigger] window[i]).position.0 <= high),
        },
    decreases high - low + 1,
{
    if low <= high {
        lemma_found(window, low);
        if found_at(window, low) is None {
            the_lowest_picture_is_the_lowest(window, low + 1, high);
        } else {
            assert(window[found_at(window, low)->Some_0].position.0 == low);
        }
    }
}

/// A range of one picture hands over that picture, and a longer one its upper
/// part before its lower.
pub proof fn the_highest_picture_goes_first(
    q: Seq<Picture>,
    window: Seq<Picture>,
    low: int,
    mid: int,
    high: int,
)
    requires
        low <= mid <= high,
    ensures
        after_range(q, window, low, high) == after_range(
            after_range(q, window, mid, high),
            window,
            low,
            mid - 1,
        ),
        found_at(window, high) is Some ==> after_range(q, window, high, high) == after_scrubbed(
            q,
            window[found_at(window, high)->Some_0],
        ),
        found_at(window, high) is None ==> after_range(q, window, high, high) == q,
        after_range(q, window, high + 1, high) == q,
    decreases high - mid,
{
    reveal_with_fuel(after_range, 2);
    let next = match found_at(window, high) {
        Some(i) => after_scrubbed(q, window[i]),
        None => q,
    };
    if mid < high {
        the_highest_picture_goes_first(next, window, low, mid, high - 1);
    } else {
        assert(after_range(next, window, high, high - 1) == next);
    }
}

} // verus!
