//! What a host draws over the video: a timecode and the safe areas.
use vstd::prelude::*;
use vstd::string::*;

use crate::model::Fps;
use crate::model::Frame;
use crate::present::fit::Quad;
use crate::text::a_padded_number_reads_back;
use crate::text::decimal;
use crate::text::digits_value;
use crate::text::padded;
use crate::text::push_padded;

verus! {

/// A rectangle drawn over the video.
#[derive(Clone, Copy, Debug, PartialEq, Eq, Structural)]
pub struct OverlayRect {
    pub quad: Quad,
    pub kind: OverlayRectKind,
}

#[derive(Clone, Copy, Debug, PartialEq, Eq, Structural)]
pub enum OverlayRectKind {
    /// Nine tenths of the picture.
    ActionSafe,
    /// Eight tenths of the picture.
    TitleSafe,
}

/// What a host draws on top of the video.
#[derive(Debug, PartialEq, Eq)]
pub struct Overlay {
    pub timecode: Option<String>,
    pub rects: Vec<OverlayRect>,
}

/// The contents of an [`Overlay`].
pub struct OverlayView {
    pub timecode: Option<Seq<char>>,
    pub rects: Seq<OverlayRect>,
}

impl View for Overlay {
    type V = OverlayView;

    open spec fn view(&self) -> OverlayView {
        OverlayView {
            timecode: match self.timecode {
                Some(t) => Some(t@),
                None => None,
            },
            rects: self.rects@,
        }
    }
}

/// Nothing to draw.
pub open spec fn no_overlay() -> OverlayView {
    OverlayView { timecode: None, rects: Seq::empty() }
}

impl Clone for Overlay {
    fn clone(&self) -> (c: Self)
        ensures
            c@ == self@,
    {
        let timecode = match &self.timecode {
            Some(t) => Some(t.clone()),
            None => None,
        };
        let mut rects: Vec<OverlayRect> = Vec::new();
        let mut i: usize = 0;
        while i < self.rects.len()
            invariant
                i <= self.rects@.len(),
                rects@ == self.rects@.take(i as int),
            decreases self.rects@.len() - i,
        {
            rects.push(self.rects[i]);
            i = i + 1;
            assert(rects@ =~= self.rects@.take(i as int));
        }
        assert(rects@ =~= self.rects@);
        Overlay { timecode, rects }
    }
}

impl Default for Overlay {
    fn default() -> (o: Self)
        ensures
            o@ == no_overlay(),
    {
        Overlay { timecode: None, rects: Vec::new() }
    }
}

/// Which overlays are enabled.
#[derive(Clone, Copy, Debug, PartialEq, Eq, Structural)]
pub struct OverlayConfig {
    pub timecode: bool,
    pub safe_areas: bool,
}

impl Default for OverlayConfig {
    fn default() -> (c: Self)
        ensures
            c == (OverlayConfig { timecode: true, safe_areas: false }),
    {
        OverlayConfig { timecode: true, safe_areas: false }
    }
}

/// A rectangle of `percent` of a quad, centred in it.
pub open spec fn inset_view(quad: Quad, percent: u32) -> Quad {
    let width = quad.width * percent / 100;
    let height = quad.height * percent / 100;
    Quad {
        x: (quad.x + (quad.width - width) / 2) as u32,
        y: (quad.y + (quad.height - height) / 2) as u32,
        width: width as u32,
        height: height as u32,
    }
}

/// Whether a rectangle of `percent` of a quad begins at a pixel number.
pub open spec fn inset_fits(quad: Quad, percent: u32) -> bool {
    let width = quad.width * percent / 100;
    let height = quad.height * percent / 100;
    &&& quad.x + (quad.width - width) / 2 <= u32::MAX
    &&& quad.y + (quad.height - height) / 2 <= u32::MAX
}

proof fn lemma_share(n: int, percent: int)
    requires
        0 <= n <= 0xffff_ffff,
        0 <= percent <= 100,
    ensures
        0 <= n * percent <= n * 100,
        0 <= n * percent / 100 <= n,
{
    assert(0 <= n * percent <= n * 100) by (nonlinear_arith)
        requires
            0 <= n,
            0 <= percent <= 100,
    ;
}

/// A rectangle of `percent` of a quad, centred in it.
pub fn inset(quad: Quad, percent: u32) -> (q: Quad)
    requires
        percent <= 100,
        inset_fits(quad, percent),
    ensures
        q == inset_view(quad, percent),
{
    proof {
        lemma_share(quad.width as int, percent as int);
        lemma_share(quad.height as int, percent as int);
    }
    let width: u32 = (quad.width as u64 * percent as u64 / 100) as u32;
    let height: u32 = (quad.height as u64 * percent as u64 / 100) as u32;
    Quad {
        x: quad.x + (quad.width - width) / 2,
        y: quad.y + (quad.height - height) / 2,
        width,
        height,
    }
}

/// The safe areas lie inside the picture, one inside the other.
pub proof fn safe_areas_nest(quad: Quad)
    requires
        inset_fits(quad, 90),
        inset_fits(quad, 80),
    ensures
        ({
            let action = inset_view(quad, 90);
            let title = inset_view(quad, 80);
            &&& quad.x <= action.x && action.x + action.width <= quad.x + quad.width
            &&& quad.y <= action.y && action.y + action.height <= quad.y + quad.height
            &&& title.width <= action.width && title.height <= action.height
            &&& quad.x <= title.x && title.x + title.width <= quad.x + quad.width
            &&& quad.y <= title.y && title.y + title.height <= quad.y + quad.height
        }),
{
}

/// Frames in one second of timecode: the rate rounded to the nearest whole
/// number, and at least one.
pub open spec fn nominal_rate(fps: Fps) -> int {
    if fps.den == 0 {
        if fps.num == 0 { 1 } else { u64::MAX as int }
    } else {
        let rounded = (2 * fps.num + fps.den) / (2 * fps.den as int);
        if rounded < 1 { 1 } else { rounded }
    }
}

fn rate_of(fps: Fps) -> (n: u64)
    ensures
        n == nominal_rate(fps),
        n >= 1,
{
    if fps.den == 0 {
        return if fps.num == 0 { 1 } else { u64::MAX };
    }
    let rounded: u64 = (2 * fps.num as u64 + fps.den as u64) / (2 * fps.den as u64);
    if rounded < 1 {
        1
    } else {
        rounded
    }
}

/// `HH:MM:SS:FF`, counting whole frames at the nominal rate.
pub open spec fn timecode_view(position: int, rate: int) -> Seq<char> {
    let secs = position / rate;
    padded((secs / 3600) as nat, 2) + ":"@ + padded((secs / 60 % 60) as nat, 2) + ":"@ + padded(
        (secs % 60) as nat,
        2,
    ) + ":"@ + padded((position % rate) as nat, 2)
}

/// `HH:MM:SS:FF` at `position`.
pub fn timecode(position: Frame, fps: Fps) -> (s: String)
    ensures
        s@ == timecode_view(position.0 as int, nominal_rate(fps)),
{
    let rate: u64 = rate_of(fps);
    let secs: u64 = position.0 / rate;
    let mut s = String::new();
    push_padded(&mut s, secs / 3600, 2);
    s.append(":");
    push_padded(&mut s, secs / 60 % 60, 2);
    s.append(":");
    push_padded(&mut s, secs % 60, 2);
    s.append(":");
    push_padded(&mut s, position.0 % rate, 2);
    assert(s@ =~= timecode_view(position.0 as int, nominal_rate(fps)));
    s
}

/// What a host draws over `quad`.
pub open spec fn overlay_view(
    cfg: OverlayConfig,
    position: Option<Frame>,
    fps: Fps,
    quad: Quad,
) -> OverlayView {
    OverlayView {
        timecode: match position {
            Some(p) => if cfg.timecode {
                Some(timecode_view(p.0 as int, nominal_rate(fps)))
            } else {
                None
            },
            None => None,
        },
        rects: if cfg.safe_areas && quad.width > 0 && quad.height > 0 {
            seq![
                OverlayRect { quad: inset_view(quad, 90), kind: OverlayRectKind::ActionSafe },
                OverlayRect { quad: inset_view(quad, 80), kind: OverlayRectKind::TitleSafe },
            ]
        } else {
            Seq::empty()
        },
    }
}

impl OverlayConfig {
    pub fn none() -> (c: Self)
        ensures
            c == (OverlayConfig { timecode: false, safe_areas: false }),
    {
        OverlayConfig { timecode: false, safe_areas: false }
    }

    /// What to draw over `quad`, at `position`.
    pub fn build(self, position: Option<Frame>, fps: Fps, quad: Quad) -> (o: Overlay)
        requires
            self.safe_areas && quad.width > 0 && quad.height > 0 ==> inset_fits(quad, 90)
                && inset_fits(quad, 80),
        ensures
            o@ == overlay_view(self, position, fps, quad),
    {
        let mut overlay = Overlay { timecode: None, rects: Vec::new() };
        if self.timecode {
            if let Some(p) = position {
                overlay.timecode = Some(timecode(p, fps));
            }
        }
        if self.safe_areas && quad.width > 0 && quad.height > 0 {
            overlay.rects.push(
                OverlayRect { quad: inset(quad, 90), kind: OverlayRectKind::ActionSafe },
            );
            overlay.rects.push(
                OverlayRect { quad: inset(quad, 80), kind: OverlayRectKind::TitleSafe },
            );
        }
        assert(overlay@.rects =~= overlay_view(self, position, fps, quad).rects);
        overlay
    }
}

/// A safe area is its share of the picture to within a pixel, and lies in the
/// middle of it.
pub proof fn a_safe_area_is_its_share_of_the_picture(quad: Quad, percent: u32)
    requires
        percent <= 100,
        inset_fits(quad, percent),
    ensures
        ({
            let q = inset_view(quad, percent);
            &&& 0 <= quad.width * percent - 100 * q.width < 100
            &&& 0 <= quad.height * percent - 100 * q.height < 100
            &&& 0 <= (quad.x + quad.width) - (q.x + q.width) - (q.x - quad.x) <= 1
            &&& 0 <= (quad.y + quad.height) - (q.y + q.height) - (q.y - quad.y) <= 1
        }),
{
    lemma_share(quad.width as int, percent as int);
    lemma_share(quad.height as int, percent as int);
}

/// The rate of a timecode is the whole number nearest to the rate of the
/// timeline, and at least one.
pub proof fn the_nominal_rate_is_the_nearest(fps: Fps)
    requires
        fps.den > 0,
    ensures
        ({
            let r = nominal_rate(fps);
            &&& r >= 1
            &&& 2 * (r * fps.den) <= 2 * fps.num + fps.den || r == 1
            &&& 2 * fps.num + fps.den < 2 * (r * fps.den) + 2 * fps.den
        }),
{
    let a = 2 * fps.num + fps.den;
    let b = 2 * fps.den as int;
    let q = a / b;
    vstd::arithmetic::div_mod::lemma_fundamental_div_mod(a, b);
    vstd::arithmetic::div_mod::lemma_mod_bound(a, b);
    let d = fps.den as int;
    assert(b * q == 2 * (q * d)) by (nonlinear_arith)
        requires
            b == 2 * d,
    ;
    if q < 1 {
        assert(q >= 0) by (nonlinear_arith)
            requires
                q == a / b,
                a >= 0,
                b > 0,
        ;
        assert(q * d == 0) by (nonlinear_arith)
            requires
                q == 0,
        ;
    }
}

/// A timecode reads back: its hours, minutes, seconds and frames, between
/// colons, count the frames from the start. Minutes and seconds stay below
/// sixty and frames below the rate.
pub proof fn a_timecode_reads_back(position: int, rate: int) -> (r: (
    Seq<char>,
    Seq<char>,
    Seq<char>,
    Seq<char>,
))
    requires
        0 <= position,
        1 <= rate,
    ensures
        timecode_view(position, rate) == r.0 + seq![':'] + r.1 + seq![':'] + r.2 + seq![':'] + r.3,
        digits_value(r.0) matches Some(h) && digits_value(r.1) matches Some(m) && digits_value(
            r.2,
        ) matches Some(s) && digits_value(r.3) matches Some(f) && {
            &&& 0 <= h
            &&& 0 <= m < 60
            &&& 0 <= s < 60
            &&& 0 <= f < rate
            &&& ((h * 60 + m) * 60 + s) * rate + f == position
        },
        r.0.len() >= 2 && r.1.len() == 2 && r.2.len() == 2 && r.3.len() >= 2,
{
    let secs = position / rate;
    vstd::arithmetic::div_mod::lemma_fundamental_div_mod(position, rate);
    vstd::arithmetic::div_mod::lemma_mod_bound(position, rate);
    assert(secs >= 0) by (nonlinear_arith)
        requires
            secs == position / rate,
            position >= 0,
            rate >= 1,
    ;
    let h = secs / 3600;
    let m = secs / 60 % 60;
    let s = secs % 60;
    let f = position % rate;
    assert((h * 60 + m) * 60 + s == secs);
    assert(rate * secs == secs * rate) by (nonlinear_arith);
    a_padded_number_reads_back(h as nat, 2);
    a_padded_number_reads_back(m as nat, 2);
    a_padded_number_reads_back(s as nat, 2);
    a_padded_number_reads_back(f as nat, 2);
    reveal_strlit(":");
    assert(decimal(m as nat).len() <= 2 && decimal(s as nat).len() <= 2) by {
        reveal_with_fuel(decimal, 3);
    }
    let r = (
        padded(h as nat, 2),
        padded(m as nat, 2),
        padded(s as nat, 2),
        padded(f as nat, 2),
    );
    assert(timecode_view(position, rate) =~= r.0 + seq![':'] + r.1 + seq![':'] + r.2 + seq![':']
        + r.3);
    r
}

/// A timecode is drawn where it is wanted and there is a picture, and the two
/// safe areas where they are wanted.
pub proof fn what_is_drawn_is_what_is_wanted(
    cfg: OverlayConfig,
    position: Option<Frame>,
    fps: Fps,
    quad: Quad,
)
    ensures
        ({
            let o = overlay_view(cfg, position, fps, quad);
            &&& o.timecode is Some <==> cfg.timecode && position is Some
            &&& o.rects.len() == if cfg.safe_areas && quad.width > 0 && quad.height > 0 {
                2nat
            } else {
                0
            }
            &&& o.rects.len() == 2 ==> {
                &&& o.rects[0].kind == OverlayRectKind::ActionSafe
                &&& o.rects[0].quad == inset_view(quad, 90)
                &&& o.rects[1].kind == OverlayRectKind::TitleSafe
                &&& o.rects[1].quad == inset_view(quad, 80)
            }
        }),
{
}

} // verus!
