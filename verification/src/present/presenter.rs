//! The presenter: one video path for every host.
//!
//! It paces frames against the sound, fits them into its surface, and composes
//! the image a host draws. A host changes only whether an overlay is
//! described; the pixels are the same.
use vstd::prelude::*;
use vstd::string::*;
use std::sync::Arc;

use crate::frames::PlanarFrame;
use crate::frames::PreviewScale;
use crate::frames::VideoFrame;
use crate::model::Fps;
use crate::model::Frame;
use crate::model::Resolution;
use crate::motion::target::Direction;
use crate::present::error::PresentError;
use crate::present::fit::Quad;
use crate::present::fit::a_picture_fits_its_surface;
use crate::present::fit::equal_shapes_fill_the_surface;
use crate::present::fit::is_degenerate;
use crate::present::fit::lemma_samples;
use crate::present::fit::lemma_u32_product;
use crate::present::fit::letterbox;
use crate::present::fit::letterbox_view;
use crate::present::fit::samples;
use crate::present::overlay::Overlay;
use crate::present::overlay::OverlayConfig;
use crate::present::overlay::OverlayView;
use crate::present::overlay::inset_fits;
use crate::present::overlay::no_overlay;
use crate::present::overlay::overlay_view;
use crate::present::pacing::Pace;
use crate::present::pacing::PaceStats;
use crate::present::pacing::Pacer;
use crate::present::pacing::PacerView;
use crate::present::pacing::PreviewSource;
use crate::present::pacing::Pulled;
use crate::present::pacing::no_frames;
use crate::present::pacing::passes_through;
use crate::present::pacing::pulled_view;
use crate::present::pacing::plus;
use crate::present::pacing::tick_outcome;

verus! {

/// Where the video is shown.
#[derive(Clone, Copy, Debug, PartialEq, Eq, Structural)]
pub enum Host {
    /// Inside the editor's own window. Overlays are allowed here only.
    Embedded,
    /// A bare window beside a terminal.
    Detached,
}

impl Host {
    /// Whether this host may draw over the video.
    pub fn allows_overlay(self) -> (b: bool)
        ensures
            b == (self == Host::Embedded),
    {
        match self {
            Host::Embedded => true,
            Host::Detached => false,
        }
    }
}

/// `Arc::clone` hands out another reference to the same value.
#[verifier::external_body]
fn share(p: &Arc<Vec<u8>>) -> (q: Arc<Vec<u8>>)
    ensures
        q == *p,
{
    Arc::clone(p)
}

/// One composed image, ready for a host.
#[derive(Debug, PartialEq, Eq)]
pub struct Presentation {
    pub surface: Resolution,
    /// Rows of red, green, blue and opacity; the bars are opaque black.
    pub pixels: Arc<Vec<u8>>,
    /// Two presentations with one id have the same pixels.
    pub pixels_id: u64,
    /// The planes of a frame that the host converts itself; `pixels` is empty
    /// then.
    pub video: Option<Arc<PlanarFrame>>,
    /// Where the video landed on the surface.
    pub quad: Quad,
    pub position: Option<Frame>,
    pub overlay: Overlay,
    pub pace: Pace,
}

/// Opaque black.
pub open spec fn black_byte(c: int) -> u8 {
    if c == 3 { 255 } else { 0 }
}

/// The source coordinate that is nearest to `at`, where `from` pixels are drawn
/// as `to`.
pub open spec fn nearest(at: int, from: int, to: int) -> int {
    at * from / to
}

/// The byte `c` of the pixel `(x, y)` of a surface that shows `frame`.
pub open spec fn composed_byte(
    frame: Option<VideoFrame>,
    quad: Quad,
    x: int,
    y: int,
    c: int,
) -> u8 {
    match frame {
        Some(f) => if quad.covers(x, y) {
            let sx = nearest(x - quad.x, f.width as int, quad.width as int);
            let sy = nearest(y - quad.y, f.height as int, quad.height as int);
            f.rgba@[(sy * f.width + sx) * 4 + c]
        } else {
            black_byte(c)
        },
        None => black_byte(c),
    }
}

/// The image of a surface that shows `frame`: black bars, and the nearest
/// pixel of the frame everywhere else.
pub open spec fn composed(surface: Resolution, frame: Option<VideoFrame>) -> Seq<u8> {
    let quad = quad_of(surface, frame);
    let w = surface.width as int;
    Seq::new(
        (surface.width * surface.height * 4) as nat,
        |i: int| composed_byte(frame, quad, i / 4 % w, i / 4 / w, i % 4),
    )
}

/// Where a frame lands on the surface.
pub open spec fn quad_of(surface: Resolution, frame: Option<VideoFrame>) -> Quad {
    match frame {
        Some(f) => letterbox_view(Resolution { width: f.width, height: f.height }, surface),
        None => Quad { x: 0, y: 0, width: 0, height: 0 },
    }
}

/// A frame that can be drawn: its buffer holds its picture, and there is one.
pub open spec fn is_drawable(f: VideoFrame) -> bool {
    f.wf() && f.width > 0 && f.height > 0
}

/// A count of bytes as an error reports it.
pub open spec fn reported(bytes: int) -> u64 {
    if bytes > u64::MAX { u64::MAX } else { bytes as u64 }
}

fn report(bytes: u128) -> (n: u64)
    ensures
        n == reported(bytes as int),
{
    if bytes > u64::MAX as u128 {
        u64::MAX
    } else {
        bytes as u64
    }
}

proof fn lemma_source_index(f: VideoFrame, quad: Quad, x: int, y: int)
    requires
        is_drawable(f),
        quad.covers(x, y),
    ensures
        ({
            let sx = nearest(x - quad.x, f.width as int, quad.width as int);
            let sy = nearest(y - quad.y, f.height as int, quad.height as int);
            &&& 0 <= sx < f.width
            &&& 0 <= sy < f.height
            &&& 0 <= sy * f.width + sx
            &&& (sy * f.width + sx) * 4 + 3 < f.rgba@.len()
        }),
{
    let fw = f.width as int;
    let fh = f.height as int;
    let qw = quad.width as int;
    let qh = quad.height as int;
    let dx = x - quad.x;
    let dy = y - quad.y;
    let sx = nearest(dx, fw, qw);
    let sy = nearest(dy, fh, qh);
    assert(0 <= sx < fw) by (nonlinear_arith)
        requires
            0 <= dx < qw,
            0 < fw,
            sx == dx * fw / qw,
    ;
    assert(0 <= sy < fh) by (nonlinear_arith)
        requires
            0 <= dy < qh,
            0 < fh,
            sy == dy * fh / qh,
    ;
    assert(0 <= sy * fw && sy * fw + fw <= fh * fw) by (nonlinear_arith)
        requires
            0 <= sy < fh,
            0 < fw,
    ;
    assert(fh * fw == fw * fh) by (nonlinear_arith);
}

proof fn lemma_pixel_index(w: int, x: int, y: int, c: int)
    requires
        0 <= x < w,
        0 <= y,
        0 <= c < 4,
    ensures
        ((y * w + x) * 4 + c) % 4 == c,
        ((y * w + x) * 4 + c) / 4 == y * w + x,
        ((y * w + x) * 4 + c) / 4 % w == x,
        ((y * w + x) * 4 + c) / 4 / w == y,
{
    let p = y * w + x;
    assert((p * 4 + c) / 4 == p);
    assert((p * 4 + c) % 4 == c);
    vstd::arithmetic::div_mod::lemma_fundamental_div_mod_converse(p, w, y, x);
}

/// One pixel of a surface that shows `frame`.
fn pixel_of(frame: Option<&VideoFrame>, quad: Quad, x: u32, y: u32) -> (px: [u8; 4])
    requires
        frame matches Some(f) ==> is_drawable(*f),
    ensures
        forall|c: int|
            0 <= c < 4 ==> #[trigger] px@[c] == composed_byte(
                match frame {
                    Some(f) => Some(*f),
                    None => None,
                },
                quad,
                x as int,
                y as int,
                c,
            ),
{
    if let Some(f) = frame {
        if quad.contains(x, y) {
            proof {
                lemma_source_index(*f, quad, x as int, y as int);
                lemma_u32_product((x - quad.x) as int, f.width as int);
                lemma_u32_product((y - quad.y) as int, f.height as int);
            }
            let sx: u64 = (x - quad.x) as u64 * f.width as u64 / quad.width as u64;
            let sy: u64 = (y - quad.y) as u64 * f.height as u64 / quad.height as u64;
            proof {
                assert(sy * f.width <= 0xffff_ffff * 0xffff_ffff) by (nonlinear_arith)
                    requires
                        sy <= 0xffff_ffff,
                        f.width <= 0xffff_ffff,
                ;
            }
            let len: usize = f.rgba.len();
            assert((sy * f.width + sx) * 4 + 3 < len);
            let at: usize = ((sy as u128 * f.width as u128 + sx as u128) * 4) as usize;
            return [f.rgba[at], f.rgba[at + 1], f.rgba[at + 2], f.rgba[at + 3]];
        }
    }
    [0, 0, 0, 255]
}

/// The pixels of a surface that shows `frame`.
fn compose_pixels(surface: Resolution, frame: Option<&VideoFrame>) -> (out: Vec<u8>)
    requires
        frame matches Some(f) ==> is_drawable(*f),
    ensures
        out@ == composed(
            surface,
            match frame {
                Some(f) => Some(*f),
                None => None,
            },
        ),
{
    let ghost shown = match frame {
        Some(f) => Some(*f),
        None => None,
    };
    let ghost whole = composed(surface, shown);
    let ghost w = surface.width as int;
    let ghost h = surface.height as int;
    let quad = match frame {
        Some(f) => letterbox(f.resolution(), surface),
        None => Quad { x: 0, y: 0, width: 0, height: 0 },
    };
    let mut out: Vec<u8> = Vec::new();
    let mut y: u32 = 0;
    while y < surface.height
        invariant
            frame matches Some(f) ==> is_drawable(*f),
            shown == (match frame {
                Some(f) => Some(*f),
                None => None,
            }),
            quad == quad_of(surface, shown),
            whole == composed(surface, shown),
            w == surface.width,
            h == surface.height,
            y <= surface.height,
            out@.len() == y * w * 4,
            forall|i: int| 0 <= i < out@.len() ==> #[trigger] out@[i] == composed_byte(
                shown,
                quad,
                i / 4 % w,
                i / 4 / w,
                i % 4,
            ),
        decreases surface.height - y,
    {
        let mut x: u32 = 0;
        while x < surface.width
            invariant
                frame matches Some(f) ==> is_drawable(*f),
                shown == (match frame {
                    Some(f) => Some(*f),
                    None => None,
                }),
                w == surface.width,
                y < surface.height,
                x <= surface.width,
                out@.len() == (y * w + x) * 4,
                forall|i: int| 0 <= i < out@.len() ==> #[trigger] out@[i] == composed_byte(
                    shown,
                    quad,
                    i / 4 % w,
                    i / 4 / w,
                    i % 4,
                ),
            decreases surface.width - x,
        {
            let px = pixel_of(frame, quad, x, y);
            let ghost base = (y * w + x) * 4;
            proof {
                lemma_pixel_index(w, x as int, y as int, 0);
                lemma_pixel_index(w, x as int, y as int, 1);
                lemma_pixel_index(w, x as int, y as int, 2);
                lemma_pixel_index(w, x as int, y as int, 3);
                assert(px@[0] == composed_byte(shown, quad, x as int, y as int, 0));
                assert(px@[1] == composed_byte(shown, quad, x as int, y as int, 1));
                assert(px@[2] == composed_byte(shown, quad, x as int, y as int, 2));
                assert(px@[3] == composed_byte(shown, quad, x as int, y as int, 3));
            }
            out.push(px[0]);
            out.push(px[1]);
            out.push(px[2]);
            out.push(px[3]);
            x = x + 1;
        }
        proof {
            assert((y * w + w) * 4 == (y + 1) * w * 4) by (nonlinear_arith);
        }
        y = y + 1;
    }
    assert(h * w * 4 == w * h * 4) by (nonlinear_arith);
    assert(out@ =~= whole);
    out
}

impl Presentation {
    /// A presentation whose buffer is empty or holds the whole surface.
    pub open spec fn wf(self) -> bool {
        self.pixels@.len() == 0 || self.pixels@.len() == self.surface.width * self.surface.height
            * 4
    }

    /// Whether the buffer holds a pixel of the surface.
    pub open spec fn has_pixel(self, x: int, y: int) -> bool {
        &&& 0 <= x < self.surface.width
        &&& 0 <= y < self.surface.height
        &&& (y * self.surface.width + x) * 4 + 4 <= self.pixels@.len()
    }

    /// A buffer that holds the whole surface holds every pixel of it.
    pub proof fn a_whole_buffer_has_every_pixel(self, x: int, y: int)
        requires
            self.wf(),
        ensures
            self.has_pixel(x, y) == (0 <= x < self.surface.width && 0 <= y < self.surface.height
                && self.pixels@.len() > 0),
    {
        let w = self.surface.width as int;
        let h = self.surface.height as int;
        if 0 <= x < w && 0 <= y < h {
            assert(0 <= y * w + x && y * w + x + 1 <= w * h) by (nonlinear_arith)
                requires
                    0 <= x < w,
                    0 <= y < h,
            ;
        }
    }

    /// The pixel at `(x, y)`, or opaque black where there is none.
    pub fn pixel(&self, x: u32, y: u32) -> (px: [u8; 4])
        ensures
            forall|c: int|
                0 <= c < 4 ==> #[trigger] px@[c] == if self.has_pixel(x as int, y as int) {
                    self.pixels@[(y * self.surface.width + x) * 4 + c]
                } else {
                    black_byte(c)
                },
    {
        if x >= self.surface.width || y >= self.surface.height {
            return [0, 0, 0, 255];
        }
        proof {
            lemma_u32_product(y as int, self.surface.width as int);
        }
        let at: u128 = (y as u128 * self.surface.width as u128 + x as u128) * 4;
        let len: usize = self.pixels.len();
        if at + 4 > len as u128 {
            return [0, 0, 0, 255];
        }
        let at: usize = at as usize;
        [self.pixels[at], self.pixels[at + 1], self.pixels[at + 2], self.pixels[at + 3]]
    }
}

/// The shared video path.
#[derive(Debug)]
pub struct Presenter {
    host: Host,
    surface: Resolution,
    fps: Fps,
    scale: PreviewScale,
    overlay_cfg: OverlayConfig,
    pacer: Pacer,
    /// The last composition, kept while the picture and the surface stay.
    cache: Option<Composition>,
    blits_skipped: u64,
    next_pixels_id: u64,
}

/// A composed surface.
#[derive(Debug)]
pub struct Composition {
    pixels: Arc<Vec<u8>>,
    pixels_id: u64,
    quad: Quad,
    position: Option<Frame>,
}

/// The state of a [`Presenter`].
pub struct PresenterView {
    pub host: Host,
    pub surface: Resolution,
    pub fps: Fps,
    pub scale: PreviewScale,
    pub overlay_cfg: OverlayConfig,
    pub pacer: PacerView,
    /// The id of the composed surface, while it is that of the picture.
    pub composed_id: Option<u64>,
    pub blits_skipped: u64,
    pub next_pixels_id: u64,
}

/// The number after `n`, starting over at the end.
pub open spec fn next_id(n: u64) -> u64 {
    if n == u64::MAX { 0 } else { (n + 1) as u64 }
}

/// What the overlay of a host says.
pub open spec fn host_overlay(
    p: PresenterView,
    position: Option<Frame>,
    quad: Quad,
) -> OverlayView {
    if p.host == Host::Embedded {
        overlay_view(p.overlay_cfg, position, p.fps, quad)
    } else {
        no_overlay()
    }
}

/// Whether the picture cannot be drawn.
pub open spec fn is_undrawable(frame: Option<VideoFrame>) -> bool {
    frame is Some && !is_drawable(frame->Some_0)
}

/// The position of the picture.
pub open spec fn shown_position(frame: Option<VideoFrame>) -> Option<Frame> {
    match frame {
        Some(f) => Some(f.position),
        None => None,
    }
}

/// Whether `out` shows the picture of `p`, paced as `pace`.
pub open spec fn shows_picture(out: Presentation, p: PresenterView, pace: Pace) -> bool {
    let frame = p.pacer.current;
    let quad = quad_of(p.surface, frame);
    &&& out.surface == p.surface
    &&& out.pixels@ == composed(p.surface, frame)
    &&& out.video is None
    &&& out.quad == quad
    &&& out.position == shown_position(frame)
    &&& out.overlay@ == host_overlay(p, shown_position(frame), quad)
    &&& out.pace == pace
}

/// The state after composing: the composed surface is kept, and composing it
/// again is skipped while the picture and the surface stay.
pub open spec fn after_compose(p: PresenterView) -> PresenterView {
    if is_undrawable(p.pacer.current) {
        p
    } else {
        match p.composed_id {
            Some(_) => PresenterView { blits_skipped: plus(p.blits_skipped, 1), ..p },
            None => PresenterView {
                composed_id: Some(p.next_pixels_id),
                next_pixels_id: next_id(p.next_pixels_id),
                ..p
            },
        }
    }
}

/// What composing gives: the picture, under the id of the composed surface, or
/// the error that names the frame that cannot be drawn.
pub open spec fn compose_outcome(
    before: PresenterView,
    pace: Pace,
    after: PresenterView,
    result: Result<Presentation, PresentError>,
) -> bool {
    &&& after == after_compose(before)
    &&& match result {
        Ok(out) => {
            &&& !is_undrawable(before.pacer.current)
            &&& shows_picture(out, before, pace)
            &&& after.composed_id == Some(out.pixels_id)
        },
        Err(e) => {
            &&& is_undrawable(before.pacer.current)
            &&& e == (PresentError::MalformedFrame {
                width: before.pacer.current->Some_0.width,
                height: before.pacer.current->Some_0.height,
                bytes: reported(before.pacer.current->Some_0.rgba@.len() as int),
            })
        },
    }
}

/// The state once the pacer has moved on: a fresh picture is not composed yet.
pub open spec fn after_pacing(p: PresenterView, pacer: PacerView, fresh: bool) -> PresenterView {
    PresenterView {
        pacer,
        composed_id: if fresh {
            None
        } else {
            p.composed_id
        },
        ..p
    }
}

/// One tick of playback: the pacer decides, then the picture is composed.
pub open spec fn present_outcome(
    before: PresenterView,
    clock: Option<Frame>,
    answers: Seq<Pulled>,
    paced: Result<Pace, PresentError>,
    pacer: PacerView,
    after: PresenterView,
    result: Result<Presentation, PresentError>,
) -> bool {
    &&& tick_outcome(before.pacer, clock, answers, pacer, paced)
    &&& match paced {
        Err(e) => result == Err::<Presentation, PresentError>(e) && after == after_pacing(
            before,
            pacer,
            false,
        ),
        Ok(pace) => compose_outcome(
            after_pacing(before, pacer, pace is Presented),
            pace,
            after,
            result,
        ),
    }
}

/// The state of a presenter that has shown nothing.
pub open spec fn initial(host: Host, surface: Resolution, fps: Fps) -> PresenterView {
    PresenterView {
        host,
        surface,
        fps,
        scale: PreviewScale::Full,
        overlay_cfg: OverlayConfig { timecode: true, safe_areas: false },
        pacer: no_frames(),
        composed_id: None,
        blits_skipped: 0,
        next_pixels_id: 0,
    }
}

/// One frame outside playback: it becomes the picture, and is composed, unless
/// its buffer does not hold what it says.
pub open spec fn frame_outcome(
    before: PresenterView,
    frame: VideoFrame,
    after: PresenterView,
    result: Result<Presentation, PresentError>,
) -> bool {
    if frame.wf() {
        compose_outcome(
            after_pacing(
                before,
                PacerView {
                    current: Some(frame),
                    stats: PaceStats {
                        presented: plus(before.pacer.stats.presented, 1),
                        ..before.pacer.stats
                    },
                    ..before.pacer
                },
                true,
            ),
            Pace::Presented(frame.position),
            after,
            result,
        )
    } else {
        &&& after == before
        &&& result == Err::<Presentation, PresentError>(
            PresentError::MalformedFrame {
                width: frame.width,
                height: frame.height,
                bytes: reported(frame.rgba@.len() as int),
            },
        )
    }
}

impl Presenter {
    pub closed spec fn view(self) -> PresenterView {
        PresenterView {
            host: self.host,
            surface: self.surface,
            fps: self.fps,
            scale: self.scale,
            overlay_cfg: self.overlay_cfg,
            pacer: self.pacer.view(),
            composed_id: match self.cache {
                Some(c) => Some(c.pixels_id),
                None => None,
            },
            blits_skipped: self.blits_skipped,
            next_pixels_id: self.next_pixels_id,
        }
    }

    /// What is kept is what composing the picture on the surface would give.
    pub closed spec fn wf(self) -> bool {
        self.cache matches Some(c) ==> {
            let frame = self.pacer.view().current;
            &&& !is_undrawable(frame)
            &&& c.pixels@ == composed(self.surface, frame)
            &&& c.quad == quad_of(self.surface, frame)
            &&& c.position == shown_position(frame)
        }
    }

    pub fn new(host: Host, surface: Resolution, fps: Fps) -> (p: Self)
        ensures
            p.wf(),
            p.view() == initial(host, surface, fps),
    {
        Presenter {
            host,
            surface,
            fps,
            scale: PreviewScale::Full,
            overlay_cfg: OverlayConfig { timecode: true, safe_areas: false },
            pacer: Pacer::new(),
            cache: None,
            blits_skipped: 0,
            next_pixels_id: 0,
        }
    }

    pub fn host(&self) -> (h: Host)
        ensures
            h == self.view().host,
    {
        self.host
    }

    pub fn surface(&self) -> (r: Resolution)
        ensures
            r == self.view().surface,
    {
        self.surface
    }

    /// Times a composition was reused.
    pub fn blits_skipped(&self) -> (n: u64)
        ensures
            n == self.view().blits_skipped,
    {
        self.blits_skipped
    }

    pub fn resize(&mut self, surface: Resolution)
        requires
            old(self).wf(),
        ensures
            final(self).wf(),
            final(self).view() == (PresenterView {
                surface,
                composed_id: if surface == old(self).view().surface {
                    old(self).view().composed_id
                } else {
                    None
                },
                ..old(self).view()
            }),
    {
        if surface != self.surface {
            self.cache = None;
        }
        self.surface = surface;
    }

    pub fn scale(&self) -> (s: PreviewScale)
        ensures
            s == self.view().scale,
    {
        self.scale
    }

    pub fn set_scale(&mut self, scale: PreviewScale)
        requires
            old(self).wf(),
        ensures
            final(self).wf(),
            final(self).view() == (PresenterView { scale, ..old(self).view() }),
    {
        self.scale = scale;
    }

    /// Picks the smallest decode that is no smaller than what is drawn.
    pub fn auto_scale(&mut self, source: Resolution)
        requires
            old(self).wf(),
        ensures
            final(self).wf(),
            final(self).view() == (PresenterView {
                scale: {
                    let drawn = letterbox_view(source, old(self).view().surface).width;
                    if drawn * 4 <= source.width {
                        PreviewScale::Quarter
                    } else if drawn * 2 <= source.width {
                        PreviewScale::Half
                    } else {
                        PreviewScale::Full
                    }
                },
                ..old(self).view()
            }),
    {
        let quad = letterbox(source, self.surface);
        self.scale = if quad.width as u64 * 4 <= source.width as u64 {
            PreviewScale::Quarter
        } else if quad.width as u64 * 2 <= source.width as u64 {
            PreviewScale::Half
        } else {
            PreviewScale::Full
        };
    }

    /// Changes what is drawn over the video, never the video.
    pub fn set_overlay_config(&mut self, cfg: OverlayConfig)
        requires
            old(self).wf(),
        ensures
            final(self).wf(),
            final(self).view() == (PresenterView { overlay_cfg: cfg, ..old(self).view() }),
    {
        self.overlay_cfg = cfg;
    }

    pub fn stats(&self) -> (s: PaceStats)
        ensures
            s == self.view().pacer.stats,
    {
        self.pacer.stats()
    }

    pub fn current(&self) -> (f: Option<&VideoFrame>)
        ensures
            match f {
                Some(f) => self.view().pacer.current == Some(*f),
                None => self.view().pacer.current is None,
            },
    {
        self.pacer.current()
    }

    pub fn clear(&mut self)
        requires
            old(self).wf(),
        ensures
            final(self).wf(),
            final(self).view() == (PresenterView {
                pacer: PacerView {
                    current: None,
                    pending: None,
                    ..old(self).view().pacer
                },
                composed_id: None,
                ..old(self).view()
            }),
    {
        self.pacer.clear();
        self.cache = None;
    }

    /// Which way the clock runs, so that pacing knows which frames are late.
    pub fn set_direction(&mut self, direction: Direction)
        requires
            old(self).wf(),
        ensures
            final(self).wf(),
            final(self).view() == (PresenterView {
                pacer: PacerView { direction, ..old(self).view().pacer },
                ..old(self).view()
            }),
    {
        self.pacer.set_direction(direction);
    }

    /// A new pass starts: the picture stays, but anything may replace it.
    pub fn restart(&mut self)
        requires
            old(self).wf(),
        ensures
            final(self).wf(),
            final(self).view() == (PresenterView {
                pacer: PacerView {
                    pending: None,
                    replaceable: true,
                    ..old(self).view().pacer
                },
                ..old(self).view()
            }),
    {
        self.pacer.restart();
    }

    fn describe(&self, position: Option<Frame>, quad: Quad) -> (o: Overlay)
        requires
            inset_fits(quad, 90),
            inset_fits(quad, 80),
        ensures
            o@ == host_overlay(self.view(), position, quad),
    {
        if self.host.allows_overlay() {
            self.overlay_cfg.build(position, self.fps, quad)
        } else {
            Overlay { timecode: None, rects: Vec::new() }
        }
    }

    /// Composes the picture, or reuses the composition where neither the
    /// picture nor the surface changed. `pace` is what became of the tick.
    pub fn compose(&mut self, pace: Pace) -> (result: Result<Presentation, PresentError>)
        requires
            old(self).wf(),
        ensures
            final(self).wf(),
            compose_outcome(old(self).view(), pace, final(self).view(), result),
    {
        let ghost before = self.view();
        let ghost frame = before.pacer.current;
        let ghost expected = quad_of(self.surface, frame);
        assert(inset_fits(expected, 90) && inset_fits(expected, 80)) by {
            if frame is Some {
                let r = Resolution {
                    width: frame->Some_0.width,
                    height: frame->Some_0.height,
                };
                if !is_degenerate(r) && !is_degenerate(self.surface) {
                    a_picture_fits_its_surface(r, self.surface);
                }
            }
        }
        let reused = match &self.cache {
            Some(c) => Some((share(&c.pixels), c.pixels_id, c.quad, c.position)),
            None => None,
        };
        if let Some((pixels, pixels_id, quad, position)) = reused {
            let overlay = self.describe(position, quad);
            self.blits_skipped = self.blits_skipped.saturating_add(1);
            return Ok(
                Presentation {
                    surface: self.surface,
                    pixels,
                    pixels_id,
                    video: None,
                    quad,
                    position,
                    overlay,
                    pace,
                },
            );
        }
        let current = self.pacer.current();
        if let Some(f) = current {
            if !f.is_well_formed() || f.width == 0 || f.height == 0 {
                return Err(
                    PresentError::MalformedFrame {
                        width: f.width,
                        height: f.height,
                        bytes: report(f.rgba.len() as u128),
                    },
                );
            }
        }
        let pixels = Arc::new(compose_pixels(self.surface, current));
        let quad = match current {
            Some(f) => letterbox(f.resolution(), self.surface),
            None => Quad { x: 0, y: 0, width: 0, height: 0 },
        };
        let position = match current {
            Some(f) => Some(f.position),
            None => None,
        };
        let overlay = self.describe(position, quad);
        let pixels_id: u64 = self.next_pixels_id;
        self.next_pixels_id = if pixels_id == u64::MAX {
            0
        } else {
            pixels_id + 1
        };
        let kept = share(&pixels);
        self.cache = Some(Composition { pixels: kept, pixels_id, quad, position });
        Ok(
            Presentation {
                surface: self.surface,
                pixels,
                pixels_id,
                video: None,
                quad,
                position,
                overlay,
                pace,
            },
        )
    }

    /// One tick of playback: paces against the clock, then composes.
    pub fn present<S: PreviewSource>(&mut self, backend: &mut S) -> (result: Result<
        Presentation,
        PresentError,
    >)
        requires
            old(self).wf(),
        ensures
            final(self).wf(),
            exists|
                clock: Option<Frame>,
                answers: Seq<Pulled>,
                states: Seq<S>,
                paced: Result<Pace, PresentError>,
                pacer: PacerView,
            |
                {
                    &&& #[trigger] present_outcome(
                        old(self).view(),
                        clock,
                        answers,
                        paced,
                        pacer,
                        final(self).view(),
                        result,
                    )
                    &&& call_ensures(S::audio_clock_position, (&*old(backend),), clock)
                    &&& #[trigger] passes_through(states, answers)
                    &&& states.first() == *old(backend)
                    &&& states.last() == *final(backend)
                    &&& forall|i: int|
                        0 <= i < answers.len() ==> exists|
                            asked: &mut S,
                            r: Result<Option<VideoFrame>, String>,
                        |
                            {
                                &&& #[trigger] call_ensures(S::next_preview_frame, (asked,), r)
                                &&& *asked == states[i]
                                &&& *final(asked) == states[i + 1]
                                &&& pulled_view(r) == #[trigger] answers[i]
                            }
                },
    {
        let ghost before = self.view();
        let clock = backend.audio_clock_position();
        let paced = self.pacer.tick(clock, backend);
        let ghost pacer = self.pacer.view();
        let ghost told = paced;
        let pace = match paced {
            Ok(p) => p,
            Err(e) => {
                let result = Err(e);
                assert(self.view() == after_pacing(before, pacer, false));
                assert(forall|answers: Seq<Pulled>| #[trigger]
                    tick_outcome(before.pacer, clock, answers, pacer, told) ==> present_outcome(
                        before,
                        clock,
                        answers,
                        told,
                        pacer,
                        self.view(),
                        result,
                    ));
                return result;
            },
        };
        let fresh = match pace {
            Pace::Presented(_) => true,
            _ => false,
        };
        if fresh {
            self.cache = None;
        }
        assert(self.view() == after_pacing(before, pacer, fresh));
        let result = self.compose(pace);
        assert(forall|answers: Seq<Pulled>| #[trigger]
            tick_outcome(before.pacer, clock, answers, pacer, told) ==> present_outcome(
                before,
                clock,
                answers,
                told,
                pacer,
                self.view(),
                result,
            ));
        result
    }

    /// Describes one planar frame for a host that converts it itself: nothing
    /// is composed.
    pub fn present_planar(&mut self, frame: Arc<PlanarFrame>) -> (result: Result<
        Presentation,
        PresentError,
    >)
        requires
            old(self).wf(),
        ensures
            final(self).wf(),
            match result {
                Ok(out) => {
                    let quad = letterbox_view(
                        Resolution { width: frame.width, height: frame.height },
                        old(self).view().surface,
                    );
                    &&& frame.wf()
                    &&& out.surface == old(self).view().surface
                    &&& out.video == Some(frame)
                    &&& out.pixels@.len() == 0
                    &&& out.pixels_id == old(self).view().next_pixels_id
                    &&& out.quad == quad
                    &&& out.position == Some(frame.position)
                    &&& out.overlay@ == host_overlay(old(self).view(), Some(frame.position), quad)
                    &&& out.pace == Pace::Presented(frame.position)
                    &&& final(self).view() == (PresenterView {
                        composed_id: None,
                        next_pixels_id: next_id(old(self).view().next_pixels_id),
                        ..old(self).view()
                    })
                },
                Err(e) => {
                    &&& !frame.wf()
                    &&& e == (PresentError::MalformedFrame {
                        width: frame.width,
                        height: frame.height,
                        bytes: reported(
                            (frame.y@.len() + frame.u@.len() + frame.v@.len()) as int,
                        ),
                    })
                    &&& final(self).view() == old(self).view()
                },
            },
    {
        if !frame.is_well_formed() {
            return Err(
                PresentError::MalformedFrame {
                    width: frame.width,
                    height: frame.height,
                    bytes: report(frame.bytes()),
                },
            );
        }
        let position = frame.position;
        let size = frame.resolution();
        let quad = letterbox(size, self.surface);
        assert(inset_fits(quad, 90) && inset_fits(quad, 80)) by {
            if !is_degenerate(size) && !is_degenerate(self.surface) {
                a_picture_fits_its_surface(size, self.surface);
            }
        }
        let overlay = self.describe(Some(position), quad);
        self.cache = None;
        let pixels_id: u64 = self.next_pixels_id;
        self.next_pixels_id = if pixels_id == u64::MAX {
            0
        } else {
            pixels_id + 1
        };
        Ok(
            Presentation {
                surface: self.surface,
                pixels: Arc::new(Vec::new()),
                pixels_id,
                video: Some(frame),
                quad,
                position: Some(position),
                overlay,
                pace: Pace::Presented(position),
            },
        )
    }

    /// Shows one frame outside playback: scrubbing, seeking, a still.
    pub fn present_frame(&mut self, frame: VideoFrame) -> (result: Result<
        Presentation,
        PresentError,
    >)
        requires
            old(self).wf(),
        ensures
            final(self).wf(),
            frame_outcome(old(self).view(), frame, final(self).view(), result),
    {
        if !frame.is_well_formed() {
            return Err(
                PresentError::MalformedFrame {
                    width: frame.width,
                    height: frame.height,
                    bytes: report(frame.rgba.len() as u128),
                },
            );
        }
        let at = frame.position;
        self.pacer.show(frame);
        self.cache = None;
        self.compose(Pace::Presented(at))
    }
}

/// Two hosts that show the same picture on surfaces of one size show the same
/// pixels in the same place; only what is described over it may differ.
pub proof fn hosts_show_the_same_pixels(
    a: Presentation,
    b: Presentation,
    p: PresenterView,
    q: PresenterView,
    pace: Pace,
)
    requires
        p.surface == q.surface,
        p.pacer.current == q.pacer.current,
        shows_picture(a, p, pace),
        shows_picture(b, q, pace),
        q.host == Host::Detached,
    ensures
        a.pixels@ == b.pixels@,
        a.quad == b.quad,
        a.position == b.position,
        b.overlay@ == no_overlay(),
{
}

/// Composing again without a change of picture or surface costs nothing and
/// keeps the id of the pixels.
pub proof fn an_unchanged_picture_keeps_its_pixels(p: PresenterView)
    requires
        !is_undrawable(p.pacer.current),
    ensures
        after_compose(after_compose(p)).composed_id == after_compose(p).composed_id,
        after_compose(after_compose(p)).next_pixels_id == after_compose(p).next_pixels_id,
        after_compose(p).composed_id is Some,
{
}

/// A frame is drawn upright and in proportion: each pixel of its rectangle is
/// the pixel of the frame that lies as far along and as far down, in all four
/// bytes. Everything around it is opaque black.
pub proof fn a_frame_is_drawn_in_proportion(surface: Resolution, f: VideoFrame, x: int, y: int)
    requires
        is_drawable(f),
        0 <= x < surface.width,
        0 <= y < surface.height,
    ensures
        ({
            let drawn = composed(surface, Some(f));
            let q = letterbox_view(Resolution { width: f.width, height: f.height }, surface);
            let at = (y * surface.width + x) * 4;
            if q.covers(x, y) {
                exists|sx: int, sy: int|
                    {
                        &&& #[trigger] samples(x - q.x, f.width as int, q.width as int, sx)
                        &&& #[trigger] samples(y - q.y, f.height as int, q.height as int, sy)
                        &&& forall|c: int|
                            0 <= c < 4 ==> #[trigger] drawn[at + c] == f.rgba@[(sy * f.width + sx)
                                * 4 + c]
                    }
            } else {
                &&& drawn[at] == 0
                &&& drawn[at + 1] == 0
                &&& drawn[at + 2] == 0
                &&& drawn[at + 3] == 255
            }
        }),
{
    let drawn = composed(surface, Some(f));
    let q = letterbox_view(Resolution { width: f.width, height: f.height }, surface);
    let w = surface.width as int;
    let h = surface.height as int;
    let at = (y * w + x) * 4;
    assert(0 <= y * w && y * w + x + 1 <= w * h) by (nonlinear_arith)
        requires
            0 <= x < w,
            0 <= y < h,
    ;
    assert forall|c: int| 0 <= c < 4 implies #[trigger] drawn[at + c] == composed_byte(
        Some(f),
        q,
        x,
        y,
        c,
    ) by {
        lemma_pixel_index(w, x, y, c);
    }
    if q.covers(x, y) {
        lemma_samples(x - q.x, f.width as int, q.width as int);
        lemma_samples(y - q.y, f.height as int, q.height as int);
        let sx = (x - q.x) * f.width / (q.width as int);
        let sy = (y - q.y) * f.height / (q.height as int);
        assert(samples(x - q.x, f.width as int, q.width as int, sx));
        assert(samples(y - q.y, f.height as int, q.height as int, sy));
    } else {
        assert(drawn[at + 0] == 0);
    }
}

/// A frame of the size of its surface is drawn as it is, byte for byte.
pub proof fn a_frame_of_the_surface_is_drawn_as_it_is(surface: Resolution, f: VideoFrame)
    requires
        is_drawable(f),
        f.width == surface.width,
        f.height == surface.height,
    ensures
        composed(surface, Some(f)) == f.rgba@,
{
    let drawn = composed(surface, Some(f));
    let w = surface.width as int;
    let h = surface.height as int;
    let size = Resolution { width: f.width, height: f.height };
    let q = letterbox_view(size, surface);
    equal_shapes_fill_the_surface(size, surface);
    assert(drawn.len() == f.rgba@.len());
    assert forall|i: int| 0 <= i < drawn.len() implies drawn[i] == f.rgba@[i] by {
        let p = i / 4;
        let x = p % w;
        let y = p / w;
        vstd::arithmetic::div_mod::lemma_fundamental_div_mod(p, w);
        vstd::arithmetic::div_mod::lemma_mod_bound(p, w);
        assert(0 <= y < h) by (nonlinear_arith)
            requires
                p == w * y + x,
                0 <= x < w,
                0 <= p < w * h,
        ;
        assert(w * y == y * w) by (nonlinear_arith);
        assert(x * w / w == x) by (nonlinear_arith)
            requires
                w > 0,
        ;
        assert(y * h / h == y) by (nonlinear_arith)
            requires
                h > 0,
        ;
        assert((y * w + x) * 4 + i % 4 == i);
    }
    assert(drawn =~= f.rgba@);
}

/// Without a frame the whole surface is opaque black.
pub proof fn no_frame_is_black(surface: Resolution, i: int)
    requires
        0 <= i < surface.width * surface.height * 4,
    ensures
        composed(surface, None).len() == surface.width * surface.height * 4,
        composed(surface, None)[i] == if i % 4 == 3 {
            255u8
        } else {
            0u8
        },
{
}

/// A frame that is given outside playback becomes the picture, and what is
/// returned shows it; one whose buffer is not whole changes nothing.
pub proof fn a_given_frame_becomes_the_picture(
    before: PresenterView,
    frame: VideoFrame,
    after: PresenterView,
    result: Result<Presentation, PresentError>,
)
    requires
        frame_outcome(before, frame, after, result),
    ensures
        frame.wf() ==> after.pacer.current == Some(frame),
        frame.wf() && result is Ok ==> {
            &&& result->Ok_0.position == Some(frame.position)
            &&& result->Ok_0.surface == before.surface
            &&& result->Ok_0.pace == Pace::Presented(frame.position)
            &&& result->Ok_0.pixels@ == composed(before.surface, Some(frame))
            &&& result->Ok_0.pixels_id == before.next_pixels_id
            &&& before.next_pixels_id < u64::MAX ==> after.next_pixels_id == before.next_pixels_id
                + 1
        },
        !frame.wf() ==> after == before && result is Err,
        after.surface == before.surface,
        after.scale == before.scale,
{
}

/// A picture that is composed anew has an id that none of the pictures before
/// it had, and one that is not keeps its own.
pub proof fn a_new_picture_has_a_new_id(p: PresenterView)
    requires
        !is_undrawable(p.pacer.current),
        p.next_pixels_id < u64::MAX,
        p.composed_id is Some ==> p.composed_id->Some_0 < p.next_pixels_id,
    ensures
        after_compose(p).composed_id is Some,
        after_compose(p).composed_id->Some_0 < after_compose(p).next_pixels_id,
        p.composed_id is None ==> after_compose(p).composed_id->Some_0 >= p.next_pixels_id,
        p.composed_id is Some ==> after_compose(p).composed_id == p.composed_id,
        p.composed_id is Some && p.blits_skipped < u64::MAX ==> after_compose(p).blits_skipped
            == p.blits_skipped + 1,
        p.composed_id is None ==> after_compose(p).blits_skipped == p.blits_skipped,
        after_compose(p).pacer == p.pacer,
{
}

/// A picture cannot be drawn where its buffer is not whole or it has no pixels;
/// without a picture there is nothing that cannot be drawn.
pub proof fn only_a_broken_picture_cannot_be_drawn(frame: VideoFrame)
    ensures
        !is_undrawable(None),
        is_undrawable(Some(frame)) <==> !frame.wf() || frame.width == 0 || frame.height == 0,
{
}

} // verus!
