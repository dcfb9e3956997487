//! Fitting a picture into a surface.
use vstd::prelude::*;

use crate::model::Resolution;

verus! {

/// A rectangle on the surface, in pixels.
#[derive(Clone, Copy, Debug, PartialEq, Eq, Structural)]
pub struct Quad {
    pub x: u32,
    pub y: u32,
    pub width: u32,
    pub height: u32,
}

impl Quad {
    /// Whether the pixel `(x, y)` lies in the rectangle.
    pub open spec fn covers(self, x: int, y: int) -> bool {
        self.x <= x < self.x + self.width && self.y <= y < self.y + self.height
    }

    pub fn contains(&self, x: u32, y: u32) -> (b: bool)
        ensures
            b == self.covers(x as int, y as int),
    {
        x >= self.x && y >= self.y && (x as u64) < self.x as u64 + self.width as u64 && (y as u64)
            < self.y as u64 + self.height as u64
    }
}

/// A size has no pixels.
pub open spec fn is_degenerate(r: Resolution) -> bool {
    r.width == 0 || r.height == 0
}

/// Whether `source` is at least as wide, for its height, as `surface`.
pub open spec fn is_wider(source: Resolution, surface: Resolution) -> bool {
    source.width * surface.height >= surface.width * source.height
}

/// At least one pixel.
pub open spec fn at_least_one(n: int) -> int {
    if n < 1 { 1 } else { n }
}

/// The width of the largest picture of the shape of `source` in `surface`.
pub open spec fn fitted_width(source: Resolution, surface: Resolution) -> int {
    if is_wider(source, surface) {
        surface.width as int
    } else {
        at_least_one(surface.height * source.width / (source.height as int))
    }
}

/// The height of the largest picture of the shape of `source` in `surface`.
pub open spec fn fitted_height(source: Resolution, surface: Resolution) -> int {
    if is_wider(source, surface) {
        at_least_one(surface.width * source.height / (source.width as int))
    } else {
        surface.height as int
    }
}

/// The largest centred rectangle in `surface` with the shape of `source`; an
/// empty one where either has no pixels.
pub open spec fn letterbox_view(source: Resolution, surface: Resolution) -> Quad {
    if is_degenerate(source) || is_degenerate(surface) {
        Quad { x: 0, y: 0, width: 0, height: 0 }
    } else {
        let w = fitted_width(source, surface);
        let h = fitted_height(source, surface);
        Quad {
            x: ((surface.width - w) / 2) as u32,
            y: ((surface.height - h) / 2) as u32,
            width: w as u32,
            height: h as u32,
        }
    }
}

proof fn lemma_scaled_bound(a: int, b: int, c: int, d: int)
    requires
        0 < c,
        0 < b,
        0 <= a * d <= c * b,
        0 < d,
    ensures
        0 <= a * d / c <= b,
{
    assert(a * d / c <= b) by (nonlinear_arith)
        requires
            0 < c,
            a * d <= c * b,
    ;
    assert(0 <= a * d / c) by (nonlinear_arith)
        requires
            0 < c,
            0 <= a * d,
    ;
}

/// The picture is never larger than its surface, and never collapses.
pub proof fn lemma_fitted_bounds(source: Resolution, surface: Resolution)
    requires
        !is_degenerate(source),
        !is_degenerate(surface),
    ensures
        1 <= fitted_width(source, surface) <= surface.width,
        1 <= fitted_height(source, surface) <= surface.height,
{
    let sw = source.width as int;
    let sh = source.height as int;
    let tw = surface.width as int;
    let th = surface.height as int;
    assert(0 <= tw * sh) by (nonlinear_arith)
        requires
            0 < tw,
            0 < sh,
    ;
    assert(0 <= th * sw) by (nonlinear_arith)
        requires
            0 < th,
            0 < sw,
    ;
    assert(sw * th == th * sw) by (nonlinear_arith);
    assert(tw * sh == sh * tw) by (nonlinear_arith);
    if is_wider(source, surface) {
        lemma_scaled_bound(tw, th, sw, sh);
    } else {
        lemma_scaled_bound(th, tw, sh, sw);
    }
}

/// The largest centred rectangle inside `surface` with the shape of `source`.
pub fn letterbox(source: Resolution, surface: Resolution) -> (q: Quad)
    ensures
        q == letterbox_view(source, surface),
{
    if source.width == 0 || source.height == 0 || surface.width == 0 || surface.height == 0 {
        return Quad { x: 0, y: 0, width: 0, height: 0 };
    }
    proof {
        lemma_fitted_bounds(source, surface);
    }
    let sw: u64 = source.width as u64;
    let sh: u64 = source.height as u64;
    let tw: u64 = surface.width as u64;
    let th: u64 = surface.height as u64;
    proof {
        lemma_u32_product(sw as int, th as int);
        lemma_u32_product(tw as int, sh as int);
        lemma_u32_product(th as int, sw as int);
    }
    let (width, height): (u64, u64) = if sw * th >= tw * sh {
        let h: u64 = tw * sh / sw;
        (tw, if h < 1 { 1 } else { h })
    } else {
        let w: u64 = th * sw / sh;
        (if w < 1 { 1 } else { w }, th)
    };
    let width: u32 = width as u32;
    let height: u32 = height as u32;
    Quad {
        x: (surface.width - width) / 2,
        y: (surface.height - height) / 2,
        width,
        height,
    }
}

/// The product of two 32-bit numbers fits 64 bits.
pub proof fn lemma_u32_product(a: int, b: int)
    requires
        0 <= a <= 0xffff_ffff,
        0 <= b <= 0xffff_ffff,
    ensures
        0 <= a * b <= 0xffff_ffff * 0xffff_ffff,
{
    assert(0 <= a * b <= 0xffff_ffff * 0xffff_ffff) by (nonlinear_arith)
        requires
            0 <= a <= 0xffff_ffff,
            0 <= b <= 0xffff_ffff,
    ;
}

/// Whatever the sizes, the picture lies inside the surface, keeps at least a
/// pixel each way, fills one of the two directions, and is centred to within
/// half a pixel.
pub proof fn a_picture_fits_its_surface(source: Resolution, surface: Resolution)
    requires
        !is_degenerate(source),
        !is_degenerate(surface),
    ensures
        ({
            let q = letterbox_view(source, surface);
            &&& 1 <= q.width <= surface.width
            &&& 1 <= q.height <= surface.height
            &&& q.x + q.width <= surface.width
            &&& q.y + q.height <= surface.height
            &&& q.width == surface.width || q.height == surface.height
            &&& 0 <= (surface.width - q.width) - 2 * q.x <= 1
            &&& 0 <= (surface.height - q.height) - 2 * q.y <= 1
        }),
{
    lemma_fitted_bounds(source, surface);
}

/// A source of the same shape fills the surface.
pub proof fn equal_shapes_fill_the_surface(source: Resolution, surface: Resolution)
    requires
        !is_degenerate(source),
        !is_degenerate(surface),
        source.width * surface.height == surface.width * source.height,
    ensures
        letterbox_view(source, surface) == (Quad {
            x: 0,
            y: 0,
            width: surface.width,
            height: surface.height,
        }),
{
    let sw = source.width as int;
    let th = surface.height as int;
    assert(surface.width * source.height == sw * th);
    assert((sw * th) / sw == th) by (nonlinear_arith)
        requires
            sw > 0,
    ;
}

/// A picture keeps its shape: its two sides are in the proportion of the
/// source, to within a pixel, unless a side is down to its last one.
pub proof fn a_picture_keeps_its_shape(source: Resolution, surface: Resolution)
    requires
        !is_degenerate(source),
        !is_degenerate(surface),
    ensures
        ({
            let q = letterbox_view(source, surface);
            &&& q.width > 1 ==> q.width * source.height < (q.height + 1) * source.width
            &&& q.height > 1 ==> q.height * source.width < (q.width + 1) * source.height
        }),
{
    lemma_fitted_bounds(source, surface);
    let q = letterbox_view(source, surface);
    let sw = source.width as int;
    let sh = source.height as int;
    let tw = surface.width as int;
    let th = surface.height as int;
    let qw = q.width as int;
    let qh = q.height as int;
    if is_wider(source, surface) {
        let h = tw * sh / sw;
        vstd::arithmetic::div_mod::lemma_fundamental_div_mod(tw * sh, sw);
        vstd::arithmetic::div_mod::lemma_mod_bound(tw * sh, sw);
        assert(tw * sh < (qh + 1) * sw) by (nonlinear_arith)
            requires
                tw * sh < sw * h + sw,
                h <= qh,
                sw > 0,
        ;
        if qh > 1 {
            assert(qh * sw < (tw + 1) * sh) by (nonlinear_arith)
                requires
                    qh == h,
                    sw * h <= tw * sh,
                    sh > 0,
            ;
        }
    } else {
        let w = th * sw / sh;
        vstd::arithmetic::div_mod::lemma_fundamental_div_mod(th * sw, sh);
        vstd::arithmetic::div_mod::lemma_mod_bound(th * sw, sh);
        assert(th * sw < (qw + 1) * sh) by (nonlinear_arith)
            requires
                th * sw < sh * w + sh,
                w <= qw,
                sh > 0,
        ;
        if qw > 1 {
            assert(qw * sh < (th + 1) * sw) by (nonlinear_arith)
                requires
                    qw == w,
                    sh * w <= th * sw,
                    sw > 0,
            ;
        }
    }
}

/// Whether `s` is the pixel of a source of `from` pixels that the near edge of
/// pixel `at` falls on, where the source is drawn as `to` pixels.
pub open spec fn samples(at: int, from: int, to: int, s: int) -> bool {
    0 <= s < from && 0 <= at * from - s * to < to
}

/// Sampling keeps the order of the pixels: the first is the first, a later one
/// is never an earlier one of the source, and at the source's own size each is
/// itself.
pub proof fn sampling_keeps_the_order(a: int, b: int, from: int, to: int, s: int, t: int)
    requires
        0 < from,
        0 < to,
        0 <= a <= b < to,
        samples(a, from, to, s),
        samples(b, from, to, t),
    ensures
        s <= t,
        a == 0 ==> s == 0,
        from == to ==> s == a,
        a == b ==> s == t,
{
    assert(s <= t) by (nonlinear_arith)
        requires
            a <= b,
            0 < from,
            0 < to,
            0 <= a * from - s * to,
            b * from - t * to < to,
    ;
    if a == 0 {
        assert(s == 0) by (nonlinear_arith)
            requires
                0 <= s,
                a == 0,
                0 <= a * from - s * to,
                0 < to,
        ;
    }
    if from == to {
        assert(s == a) by (nonlinear_arith)
            requires
                0 <= a * to - s * to < to,
                0 < to,
        ;
    }
    if a == b {
        assert(s == t) by (nonlinear_arith)
            requires
                0 <= a * from - s * to < to,
                0 <= a * from - t * to < to,
                0 < to,
        ;
    }
}

/// The quotient is the pixel that is sampled.
pub proof fn lemma_samples(at: int, from: int, to: int)
    requires
        0 <= at < to,
        0 < from,
    ensures
        samples(at, from, to, at * from / to),
{
    vstd::arithmetic::div_mod::lemma_fundamental_div_mod(at * from, to);
    vstd::arithmetic::div_mod::lemma_mod_bound(at * from, to);
    let s = at * from / to;
    assert(to * s == s * to) by (nonlinear_arith);
    assert(0 <= s < from) by (nonlinear_arith)
        requires
            0 <= at < to,
            0 < from,
            s == at * from / to,
    ;
}

/// A rectangle covers as many pixels across as it is wide and as many down as
/// it is tall, from its own corner on.
pub proof fn a_rectangle_covers_its_own_pixels(q: Quad, dx: int, dy: int)
    ensures
        q.covers(q.x + dx, q.y + dy) <==> 0 <= dx < q.width && 0 <= dy < q.height,
{
}

} // verus!
