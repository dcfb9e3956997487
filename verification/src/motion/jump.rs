//! Points of the timeline that a motion can jump to.
use vstd::prelude::*;

use crate::model::Frame;
use crate::motion::target::Direction;

verus! {

/// Whether `point` lies strictly beyond `at`.
pub open spec fn is_beyond(point: Frame, at: Frame, dir: Direction) -> bool {
    match dir {
        Direction::Forward => point.0 > at.0,
        Direction::Backward => point.0 < at.0,
    }
}

/// The nearest point strictly beyond `at`; the points are in no order.
pub open spec fn next_point(points: Seq<Frame>, at: Frame, dir: Direction) -> Option<Frame>
    decreases points.len(),
{
    if points.len() == 0 {
        None
    } else {
        let best = next_point(points.drop_last(), at, dir);
        let point = points.last();
        if is_beyond(point, at, dir) && (best is None || is_beyond(best->Some_0, point, dir)) {
            Some(point)
        } else {
            best
        }
    }
}

/// Where `n` steps from `at` lead; the last point is the end of the way.
pub open spec fn travel(points: Seq<Frame>, at: Frame, dir: Direction, n: nat) -> Frame
    decreases n,
{
    if n == 0 {
        at
    } else {
        match next_point(points, at, dir) {
            Some(f) => travel(points, f, dir, (n - 1) as nat),
            None => at,
        }
    }
}

/// Where `n` steps lead, or nothing where not even one can be taken.
pub open spec fn destination(points: Seq<Frame>, at: Frame, dir: Direction, n: nat) -> Option<
    Frame,
> {
    if next_point(points, at, dir) is None {
        None
    } else {
        Some(travel(points, at, dir, n))
    }
}

/// A step lands on the nearest point beyond, and only where there is one.
pub proof fn a_step_is_the_nearest(points: Seq<Frame>, at: Frame, dir: Direction)
    ensures
        next_point(points, at, dir) matches Some(f) ==> points.contains(f) && is_beyond(f, at, dir),
        forall|i: int|
            0 <= i < points.len() && is_beyond(#[trigger] points[i], at, dir) ==> next_point(
                points,
                at,
                dir,
            ) is Some && !is_beyond(next_point(points, at, dir)->Some_0, points[i], dir),
    decreases points.len(),
{
    if points.len() > 0 {
        let front = points.drop_last();
        a_step_is_the_nearest(front, at, dir);
        let best = next_point(front, at, dir);
        if best is Some {
            let k = choose|k: int| 0 <= k < front.len() && front[k] == best->Some_0;
            assert(points[k] == best->Some_0);
        }
        assert(points[points.len() - 1] == points.last());
        assert forall|i: int|
            0 <= i < points.len() && is_beyond(#[trigger] points[i], at, dir) implies next_point(
            points,
            at,
            dir,
        ) is Some && !is_beyond(next_point(points, at, dir)->Some_0, points[i], dir) by {
            if i < front.len() {
                assert(front[i] == points[i]);
            }
        }
    }
}

/// Steps never leave the points: wherever they lead is a point or the start.
pub proof fn lemma_travel_stays(points: Seq<Frame>, at: Frame, dir: Direction, n: nat)
    ensures
        travel(points, at, dir, n) == at || points.contains(travel(points, at, dir, n)),
    decreases n,
{
    if n > 0 {
        a_step_is_the_nearest(points, at, dir);
        if let Some(f) = next_point(points, at, dir) {
            lemma_travel_stays(points, f, dir, (n - 1) as nat);
        }
    }
}

/// A destination is one of the points.
pub proof fn a_destination_is_a_point(points: Seq<Frame>, at: Frame, dir: Direction, n: nat)
    requires
        n > 0,
    ensures
        destination(points, at, dir, n) matches Some(f) ==> points.contains(f),
{
    a_step_is_the_nearest(points, at, dir);
    if let Some(f) = next_point(points, at, dir) {
        lemma_travel_stays(points, f, dir, (n - 1) as nat);
    }
}

fn beyond(point: Frame, at: Frame, dir: Direction) -> (b: bool)
    ensures
        b == is_beyond(point, at, dir),
{
    match dir {
        Direction::Forward => point.0 > at.0,
        Direction::Backward => point.0 < at.0,
    }
}

/// The nearest point strictly beyond `at`.
pub fn nearest(points: &[Frame], at: Frame, dir: Direction) -> (f: Option<Frame>)
    ensures
        f == next_point(points@, at, dir),
{
    let mut best: Option<Frame> = None;
    let mut i: usize = 0;
    assert(points@.take(0) =~= Seq::<Frame>::empty());
    while i < points.len()
        invariant
            i <= points@.len(),
            best == next_point(points@.take(i as int), at, dir),
        decreases points@.len() - i,
    {
        assert(points@.take(i as int + 1).drop_last() =~= points@.take(i as int));
        let point = points[i];
        let closer = match best {
            Some(b) => beyond(b, point, dir),
            None => true,
        };
        if beyond(point, at, dir) && closer {
            best = Some(point);
        }
        i = i + 1;
    }
    assert(points@.take(i as int) =~= points@);
    best
}

/// Where `n` steps from `at` lead.
pub fn steps(points: &[Frame], at: Frame, dir: Direction, n: u32) -> (f: Option<Frame>)
    requires
        n > 0,
    ensures
        f == destination(points@, at, dir, n as nat),
{
    let mut here = at;
    let mut moved = false;
    let mut i: u32 = 0;
    while i < n
        invariant
            i <= n,
            moved == (i > 0),
            moved ==> next_point(points@, at, dir) is Some,
            travel(points@, at, dir, n as nat) == travel(points@, here, dir, (n - i) as nat),
            i == 0 ==> here == at,
        decreases n - i,
    {
        match nearest(points, here, dir) {
            Some(f) => {
                here = f;
                moved = true;
            },
            None => {
                return if moved {
                    Some(here)
                } else {
                    None
                };
            },
        }
        i = i + 1;
    }
    if moved {
        Some(here)
    } else {
        None
    }
}

/// The points of a track that a jump can land on.
#[derive(Debug, PartialEq, Eq)]
pub struct JumpPoints {
    pub points: Vec<Frame>,
}

impl JumpPoints {
    /// Where `n` jumps from `from` lead.
    pub fn step(&self, from: Frame, dir: Direction, n: u32) -> (f: Option<Frame>)
        requires
            n > 0,
        ensures
            f == destination(self.points@, from, dir, n as nat),
    {
        steps(self.points.as_slice(), from, dir, n)
    }
}

impl Default for JumpPoints {
    fn default() -> (p: Self)
        ensures
            p.points@.len() == 0,
    {
        JumpPoints { points: Vec::new() }
    }
}

/// Several jumps are jumps one after the other: going on from where some lead
/// comes to the same as going all the way at once. One jump goes to the next
/// point.
pub proof fn jumps_follow_each_other(
    points: Seq<Frame>,
    at: Frame,
    dir: Direction,
    m: nat,
    n: nat,
)
    ensures
        travel(points, at, dir, m + n) == travel(points, travel(points, at, dir, m), dir, n),
        next_point(points, at, dir) matches Some(f) ==> travel(points, at, dir, 1) == f,
        next_point(points, at, dir) is None ==> travel(points, at, dir, n) == at,
        destination(points, at, dir, n) is None <==> next_point(points, at, dir) is None,
    decreases m,
{
    reveal_with_fuel(travel, 2);
    if m > 0 {
        match next_point(points, at, dir) {
            Some(f) => {
                jumps_follow_each_other(points, f, dir, (m - 1) as nat, n);
            },
            None => {
                jumps_follow_each_other(points, at, dir, (m - 1) as nat, n);
            },
        }
    }
}

/// What lies beyond lies ahead going forward, and behind going back.
pub proof fn beyond_is_ahead_or_behind(point: Frame, at: Frame)
    ensures
        is_beyond(point, at, Direction::Forward) <==> point.0 > at.0,
        is_beyond(point, at, Direction::Backward) <==> point.0 < at.0,
{
}

} // verus!
