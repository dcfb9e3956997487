//! A preview scale that follows the frame budget.
//!
//! Two things matter more than the exact thresholds: the policy does not
//! oscillate, because every change restarts playback, and it never raises a
//! scale that it did not lower itself.
use vstd::prelude::*;
use vstd::string::*;

use crate::frames::PreviewScale;
use crate::present::pacing::PaceStats;
use crate::text::join3;

verus! {

/// Ticks in one decision window.
pub const WINDOW: u64 = 60;

/// Drops per window that count as not keeping up, in percent of the frames
/// presented in it.
pub const DROP_PERCENT: u64 = 20;

/// Windows without a drop, in a row, before resolution is given back.
pub const CLEAN_WINDOWS: u8 = 3;

/// The scale policy of one preview.
#[derive(Clone, Copy, Debug, PartialEq, Eq, Structural)]
pub struct AdaptiveScale {
    pub baseline: PaceStats,
    pub ticks: u64,
    pub steps_down: u8,
    pub clean: u8,
}

/// A change of scale that the policy asks for.
#[derive(Clone, Copy, Debug, PartialEq, Eq, Structural)]
pub struct ScaleChange {
    pub scale: PreviewScale,
    pub reduced: bool,
}

/// How a scale is called.
pub open spec fn scale_name(scale: PreviewScale) -> Seq<char> {
    match scale {
        PreviewScale::Full => "full resolution"@,
        PreviewScale::Half => "half resolution"@,
        PreviewScale::Quarter => "quarter resolution"@,
    }
}

impl ScaleChange {
    /// One complete sentence for the status line.
    pub fn message(self) -> (s: String)
        ensures
            s@ == if self.reduced {
                "Preview dropped to "@ + scale_name(self.scale) + " to keep up with the clock."@
            } else {
                "Preview is back to "@ + scale_name(self.scale) + "."@
            },
    {
        let what = match self.scale {
            PreviewScale::Full => "full resolution",
            PreviewScale::Half => "half resolution",
            PreviewScale::Quarter => "quarter resolution",
        };
        if self.reduced {
            join3("Preview dropped to ", what, " to keep up with the clock.")
        } else {
            join3("Preview is back to ", what, ".")
        }
    }
}

/// One step smaller, down to a quarter.
pub open spec fn smaller(scale: PreviewScale) -> PreviewScale {
    match scale {
        PreviewScale::Full => PreviewScale::Half,
        _ => PreviewScale::Quarter,
    }
}

/// One step larger, up to full.
pub open spec fn larger(scale: PreviewScale) -> PreviewScale {
    match scale {
        PreviewScale::Quarter => PreviewScale::Half,
        _ => PreviewScale::Full,
    }
}

/// `n` steps larger.
pub open spec fn larger_by(scale: PreviewScale, n: nat) -> PreviewScale
    decreases n,
{
    if n == 0 {
        scale
    } else {
        larger(larger_by(scale, (n - 1) as nat))
    }
}

fn down(scale: PreviewScale) -> (s: PreviewScale)
    ensures
        s == smaller(scale),
{
    match scale {
        PreviewScale::Full => PreviewScale::Half,
        _ => PreviewScale::Quarter,
    }
}

fn up(scale: PreviewScale) -> (s: PreviewScale)
    ensures
        s == larger(scale),
{
    match scale {
        PreviewScale::Quarter => PreviewScale::Half,
        _ => PreviewScale::Full,
    }
}

/// What was counted since `from`; a counter that went back counts nothing.
pub open spec fn since(now: u64, from: u64) -> int {
    if now > from { now - from } else { 0 }
}

/// What one tick does to the policy.
pub struct Observed {
    pub policy: AdaptiveScale,
    pub change: Option<ScaleChange>,
}

/// A count of eight bits that stops at its end.
pub open spec fn plus_one(n: u8) -> u8 {
    if n == u8::MAX { n } else { (n + 1) as u8 }
}

/// The policy at the end of a window: too many drops lower the scale by one
/// step, and enough clean windows in a row give one step back.
pub open spec fn at_window_end(
    policy: AdaptiveScale,
    stats: PaceStats,
    current: PreviewScale,
) -> Observed {
    let dropped = since(stats.dropped_late, policy.baseline.dropped_late);
    let presented = since(stats.presented, policy.baseline.presented);
    let clean = if dropped == 0 { plus_one(policy.clean) } else { 0u8 };
    let next = AdaptiveScale { baseline: stats, ticks: 0, steps_down: policy.steps_down, clean };
    if presented > 0 && dropped * 100 > presented * 20 {
        if smaller(current) == current {
            Observed { policy: next, change: None }
        } else {
            Observed {
                policy: AdaptiveScale { steps_down: plus_one(policy.steps_down), ..next },
                change: Some(ScaleChange { scale: smaller(current), reduced: true }),
            }
        }
    } else if clean >= 3 && policy.steps_down > 0 {
        Observed {
            policy: AdaptiveScale {
                clean: 0,
                steps_down: (policy.steps_down - 1) as u8,
                ..next
            },
            change: if larger(current) == current {
                None
            } else {
                Some(ScaleChange { scale: larger(current), reduced: false })
            },
        }
    } else {
        Observed { policy: next, change: None }
    }
}

/// One tick of the policy: nothing is decided before a window is over.
pub open spec fn observed(
    policy: AdaptiveScale,
    stats: PaceStats,
    current: PreviewScale,
) -> Observed {
    if policy.ticks + 1 < 60 {
        Observed {
            policy: AdaptiveScale { ticks: (policy.ticks + 1) as u64, ..policy },
            change: None,
        }
    } else {
        at_window_end(policy, stats, current)
    }
}

/// A policy that has seen nothing.
pub open spec fn fresh() -> AdaptiveScale {
    AdaptiveScale {
        baseline: PaceStats { presented: 0, dropped_late: 0, repeated: 0 },
        ticks: 0,
        steps_down: 0,
        clean: 0,
    }
}

impl AdaptiveScale {
    /// The window is not over.
    pub open spec fn wf(self) -> bool {
        self.ticks < 60
    }

    pub fn new() -> (p: Self)
        ensures
            p.wf(),
            p == fresh(),
    {
        AdaptiveScale {
            baseline: PaceStats { presented: 0, dropped_late: 0, repeated: 0 },
            ticks: 0,
            steps_down: 0,
            clean: 0,
        }
    }

    /// Forgets the current window, so that none straddles two passes.
    pub fn reset(&mut self, stats: PaceStats)
        ensures
            final(self).wf(),
            *final(self) == (AdaptiveScale { baseline: stats, ticks: 0, ..*old(self) }),
    {
        self.baseline = stats;
        self.ticks = 0;
    }

    /// Gives back every step the policy took, for a session that stops.
    pub fn release(&mut self, current: PreviewScale) -> (change: Option<ScaleChange>)
        requires
            old(self).wf(),
        ensures
            final(self).wf(),
            *final(self) == if old(self).steps_down == 0 {
                *old(self)
            } else {
                AdaptiveScale { steps_down: 0, clean: 0, ..*old(self) }
            },
            change == {
                let scale = larger_by(current, old(self).steps_down as nat);
                if scale == current {
                    None
                } else {
                    Some(ScaleChange { scale, reduced: false })
                }
            },
    {
        if self.steps_down == 0 {
            return None;
        }
        let mut scale = current;
        let mut i: u8 = 0;
        while i < self.steps_down
            invariant
                i <= self.steps_down,
                *self == *old(self),
                scale == larger_by(current, i as nat),
            decreases self.steps_down - i,
        {
            scale = up(scale);
            i = i + 1;
        }
        self.steps_down = 0;
        self.clean = 0;
        if scale == current {
            None
        } else {
            Some(ScaleChange { scale, reduced: false })
        }
    }

    /// One playback tick: the scale to switch to, if a window just closed on a
    /// decision.
    pub fn observe(&mut self, stats: PaceStats, current: PreviewScale) -> (change: Option<
        ScaleChange,
    >)
        requires
            old(self).wf(),
        ensures
            final(self).wf(),
            *final(self) == observed(*old(self), stats, current).policy,
            change == observed(*old(self), stats, current).change,
    {
        self.ticks = self.ticks + 1;
        if self.ticks < WINDOW {
            return None;
        }
        let dropped: u64 = stats.dropped_late.saturating_sub(self.baseline.dropped_late);
        let presented: u64 = stats.presented.saturating_sub(self.baseline.presented);
        self.reset(stats);
        self.clean = if dropped == 0 {
            self.clean.saturating_add(1)
        } else {
            0
        };
        let struggling = presented > 0 && dropped as u128 * 100 > presented as u128
            * DROP_PERCENT as u128;
        if struggling {
            let next = down(current);
            if next == current {
                return None;
            }
            self.steps_down = self.steps_down.saturating_add(1);
            return Some(ScaleChange { scale: next, reduced: true });
        }
        if self.clean >= CLEAN_WINDOWS && self.steps_down > 0 {
            self.clean = 0;
            self.steps_down = self.steps_down - 1;
            let next = up(current);
            if next != current {
                return Some(ScaleChange { scale: next, reduced: false });
            }
        }
        None
    }
}

impl Default for AdaptiveScale {
    fn default() -> (p: Self)
        ensures
            p.wf(),
            p == fresh(),
    {
        AdaptiveScale::new()
    }
}

/// A scale is raised only when the policy itself lowered it before, and only
/// after three clean windows in a row.
pub proof fn only_own_steps_are_given_back(
    policy: AdaptiveScale,
    stats: PaceStats,
    current: PreviewScale,
)
    requires
        policy.wf(),
    ensures
        observed(policy, stats, current).change matches Some(c) && !c.reduced ==> policy.steps_down > 0
            && policy.clean >= 2 && since(stats.dropped_late, policy.baseline.dropped_late) == 0,
        observed(policy, stats, current).change matches Some(c) && c.reduced ==> observed(
            policy,
            stats,
            current,
        ).policy.steps_down > 0,
{
}

/// A window with a drop starts the count of clean windows over, so windows
/// that alternate never raise the scale.
pub proof fn a_drop_starts_over(
    policy: AdaptiveScale,
    stats: PaceStats,
    current: PreviewScale,
)
    requires
        policy.ticks == 59,
        since(stats.dropped_late, policy.baseline.dropped_late) > 0,
    ensures
        observed(policy, stats, current).policy.clean == 0,
        observed(policy, stats, current).change matches Some(c) ==> c.reduced,
{
}

/// A run of ticks that starts with a fresh policy, where every scale that it
/// asks for is taken up.
pub struct Trail {
    pub policy: AdaptiveScale,
    pub scale: PreviewScale,
    /// How often the scale was lowered.
    pub downs: nat,
    /// How often it was raised.
    pub ups: nat,
}

/// The run after its first `n` ticks.
pub open spec fn trail(stats: Seq<PaceStats>, start: PreviewScale, n: nat) -> Trail
    decreases n,
{
    if n == 0 {
        Trail { policy: fresh(), scale: start, downs: 0, ups: 0 }
    } else {
        let before = trail(stats, start, (n - 1) as nat);
        let o = observed(before.policy, stats[n - 1], before.scale);
        match o.change {
            None => Trail { policy: o.policy, ..before },
            Some(c) => Trail {
                policy: o.policy,
                scale: c.scale,
                downs: if c.reduced {
                    before.downs + 1
                } else {
                    before.downs
                },
                ups: if c.reduced {
                    before.ups
                } else {
                    before.ups + 1
                },
            },
        }
    }
}

/// What the policy asks for on the `n`-th tick of a run, counted from one.
pub open spec fn told_at(stats: Seq<PaceStats>, start: PreviewScale, n: nat) -> Option<ScaleChange> {
    let before = trail(stats, start, (n - 1) as nat);
    observed(before.policy, stats[n - 1], before.scale).change
}

/// How many frames were dropped by the `n`-th tick.
pub open spec fn drops_by(stats: Seq<PaceStats>, n: int) -> u64 {
    if n <= 0 {
        0
    } else {
        stats[n - 1].dropped_late
    }
}

/// Whether the count of dropped frames never falls.
pub open spec fn counts_up(stats: Seq<PaceStats>) -> bool {
    forall|i: int, j: int|
        0 <= i <= j < stats.len() ==> (#[trigger] stats[i]).dropped_late <= (
        #[trigger] stats[j]).dropped_late
}

proof fn lemma_trail(stats: Seq<PaceStats>, start: PreviewScale, n: nat)
    requires
        counts_up(stats),
        n <= stats.len(),
    ensures
        ({
            let t = trail(stats, start, n);
            let closed = n - n % 60;
            let since_clean = closed - 60 * t.policy.clean;
            &&& t.policy.ticks == n % 60
            &&& t.policy.baseline.dropped_late == drops_by(stats, closed)
            &&& since_clean >= 0
            &&& drops_by(stats, since_clean) == drops_by(stats, closed)
            &&& forall|m: nat|
                since_clean < m <= n ==> #[trigger] told_at(stats, start, m) is None
            &&& t.ups + t.policy.steps_down <= t.downs
        }),
    decreases n,
{
    if n > 0 {
        let k = (n - 1) as nat;
        lemma_trail(stats, start, k);
        let b = trail(stats, start, k);
        let t = trail(stats, start, n);
        let o = observed(b.policy, stats[n - 1], b.scale);
        if b.policy.ticks + 1 < 60 {
            assert(n % 60 == k % 60 + 1);
            assert(n - n % 60 == k - k % 60);
        } else {
            assert(k % 60 == 59 && n % 60 == 0);
            let opened = k - 59;
            if opened > 0 {
                assert(stats[opened - 1].dropped_late <= stats[n - 1].dropped_late);
            }
            if t.policy.clean > 0 {
                assert(o.change is None);
                assert(drops_by(stats, n as int) == drops_by(stats, opened));
                if b.policy.clean == u8::MAX {
                    let from = n - 60 * 255;
                    let earlier = opened - 60 * 255;
                    assert(earlier < from);
                    if earlier > 0 {
                        assert(stats[earlier - 1].dropped_late <= stats[from - 1].dropped_late);
                    }
                    assert(stats[from - 1].dropped_late <= stats[n - 1].dropped_late);
                }
            }
        }
        assert forall|m: nat|
            n - n % 60 - 60 * t.policy.clean < m <= n implies #[trigger] told_at(
                stats,
                start,
                m,
            ) is None by {
            if m == n {
                assert(told_at(stats, start, m) == o.change);
            }
        }
    }
}

/// Over a whole run the scale is never raised more often than the policy
/// lowered it, and it is raised only at the end of three windows in a row
/// without a dropped frame, with no other change in them.
pub proof fn a_run_gives_back_only_what_it_took(
    stats: Seq<PaceStats>,
    start: PreviewScale,
    n: nat,
)
    requires
        counts_up(stats),
        n <= stats.len(),
    ensures
        trail(stats, start, n).ups <= trail(stats, start, n).downs,
        n > 0 && (told_at(stats, start, n) matches Some(c) && !c.reduced) ==> {
            &&& n % 60 == 0
            &&& n >= 180
            &&& drops_by(stats, n - 180) == drops_by(stats, n as int)
            &&& forall|m: nat| n - 180 < m < n ==> #[trigger] told_at(stats, start, m) is None
            &&& trail(stats, start, (n - 1) as nat).downs > trail(stats, start, (n - 1) as nat).ups
        },
{
    lemma_trail(stats, start, n);
    if n > 0 {
        let k = (n - 1) as nat;
        lemma_trail(stats, start, k);
        let b = trail(stats, start, k);
        if told_at(stats, start, n) matches Some(c) && !c.reduced {
            assert(b.policy.ticks == 59 && n % 60 == 0);
            assert(b.policy.clean >= 2);
            let opened = k - 59;
            if opened > 0 {
                assert(stats[opened - 1].dropped_late <= stats[n - 1].dropped_late);
            }
            let from = n - 180;
            let earlier = opened - 60 * b.policy.clean;
            if earlier > 0 {
                assert(stats[earlier - 1].dropped_late <= stats[from - 1].dropped_late);
            }
            if from > 0 {
                assert(stats[from - 1].dropped_late <= stats[n - 1].dropped_late);
            }
        }
    }
}

/// A window in which more than a fifth as many frames were dropped as were
/// shown lowers the scale by one step, unless it is the lowest; nothing is
/// decided inside a window.
pub proof fn too_many_drops_lower_the_scale(
    policy: AdaptiveScale,
    stats: PaceStats,
    current: PreviewScale,
)
    requires
        policy.wf(),
        policy.baseline.presented < stats.presented,
        policy.baseline.dropped_late <= stats.dropped_late,
    ensures
        ({
            let o = observed(policy, stats, current);
            let shown = stats.presented - policy.baseline.presented;
            let dropped = stats.dropped_late - policy.baseline.dropped_late;
            &&& policy.ticks < 59 ==> o.change is None && o.policy.ticks == policy.ticks + 1
                && o.policy.steps_down == policy.steps_down && o.policy.clean == policy.clean
                && o.policy.baseline == policy.baseline
            &&& policy.ticks == 59 ==> o.policy.ticks == 0 && o.policy.baseline == stats
            &&& policy.ticks == 59 && 5 * dropped > shown && current == PreviewScale::Full
                ==> o.change == Some(ScaleChange { scale: PreviewScale::Half, reduced: true })
            &&& policy.ticks == 59 && 5 * dropped > shown && current == PreviewScale::Half
                ==> o.change == Some(ScaleChange { scale: PreviewScale::Quarter, reduced: true })
            &&& policy.ticks == 59 && 5 * dropped > shown && current == PreviewScale::Quarter
                ==> o.change is None
            &&& 5 * dropped <= shown ==> !(o.change matches Some(c) && c.reduced)
        }),
{
}

/// Three windows in a row without a drop give one step back, where the policy
/// took one.
pub proof fn clean_windows_give_a_step_back(
    policy: AdaptiveScale,
    stats: PaceStats,
    current: PreviewScale,
)
    requires
        policy.ticks == 59,
        policy.clean >= 2,
        policy.steps_down > 0,
        stats.dropped_late == policy.baseline.dropped_late,
    ensures
        ({
            let o = observed(policy, stats, current);
            &&& current == PreviewScale::Quarter ==> o.change == Some(
                ScaleChange { scale: PreviewScale::Half, reduced: false },
            )
            &&& current == PreviewScale::Half ==> o.change == Some(
                ScaleChange { scale: PreviewScale::Full, reduced: false },
            )
            &&& o.policy.steps_down == policy.steps_down - 1
            &&& o.policy.clean == 0
        }),
{
}

/// Giving every step back undoes the steps that were taken.
pub proof fn giving_back_undoes_the_steps(scale: PreviewScale)
    ensures
        scale == PreviewScale::Full ==> larger_by(smaller(scale), 1) == scale,
        scale == PreviewScale::Full ==> larger_by(smaller(smaller(scale)), 2) == scale,
        scale == PreviewScale::Half ==> larger_by(smaller(scale), 1) == scale,
        larger_by(scale, 0) == scale,
        larger_by(scale, 2) == PreviewScale::Full,
{
    reveal_with_fuel(larger_by, 4);
}

} // verus!
