//! Showing frames: pacing, composition, overlays and adapting the scale.

use std::sync::Arc;

use davimci::frames::{PlanarFrame, PreviewScale, VideoFrame};
use davimci::mlt::run::black;
use davimci::model::{Fps, Frame, Resolution};
use davimci::motion::target::Direction;
use davimci::present::adaptive::{AdaptiveScale, ScaleChange, CLEAN_WINDOWS, WINDOW};
use davimci::present::error::PresentError;
use davimci::present::fit::{letterbox, Quad};
use davimci::present::gpu::{plan_upload, CHROMA_UPSAMPLE_TOLERANCE, SHADER_TOLERANCE};
use davimci::present::headless::HeadlessPresenter;
use davimci::present::overlay::{inset, timecode, Overlay, OverlayConfig};
use davimci::present::pacing::{Pace, PaceStats, Pacer, PreviewSource, Step};
use davimci::present::presenter::{Host, Presenter};

const FPS_60: Fps = Fps { num: 60, den: 1 };

fn res(width: u32, height: u32) -> Resolution {
    Resolution { width, height }
}

fn signature(at: Frame) -> [u8; 4] {
    [at.0 as u8, (at.0 * 3) as u8, 77, 255]
}

/// A source that counts: its clock stands at the next frame of its queue.
struct Mock {
    size: Resolution,
    next: Option<u64>,
    budget: Option<u64>,
}

impl Mock {
    fn new(size: Resolution) -> Self {
        Self {
            size,
            next: None,
            budget: None,
        }
    }

    fn started(size: Resolution) -> Self {
        Self {
            size,
            next: Some(0),
            budget: None,
        }
    }

    fn frame_at(&self, at: Frame) -> VideoFrame {
        let pixels = (self.size.width * self.size.height) as usize;
        VideoFrame {
            position: at,
            width: self.size.width,
            height: self.size.height,
            rgba: signature(at).repeat(pixels),
        }
    }
}

impl PreviewSource for Mock {
    fn audio_clock_position(&self) -> Option<Frame> {
        self.next.map(Frame)
    }

    fn next_preview_frame(&mut self) -> Result<Option<VideoFrame>, String> {
        let Some(at) = self.next else {
            return Err("the preview has not started".into());
        };
        match self.budget {
            Some(0) => return Ok(None),
            Some(n) => self.budget = Some(n - 1),
            None => {}
        }
        self.next = Some(at + 1);
        Ok(Some(self.frame_at(Frame(at))))
    }
}

fn backend() -> Mock {
    Mock::started(res(4, 2))
}

#[test]
fn equal_aspect_fills_the_surface() {
    let q = letterbox(res(1920, 1080), res(640, 360));
    assert_eq!(
        q,
        Quad {
            x: 0,
            y: 0,
            width: 640,
            height: 360
        }
    );
}

#[test]
fn wide_source_gets_horizontal_bars() {
    let q = letterbox(res(1920, 800), res(800, 800));
    assert_eq!(q.width, 800);
    assert_eq!(q.height, 333);
    assert_eq!(q.x, 0);
    assert_eq!(q.y, (800 - 333) / 2);
}

#[test]
fn tall_source_gets_vertical_bars() {
    let q = letterbox(res(1080, 1920), res(800, 800));
    assert_eq!(q.height, 800);
    assert_eq!(q.width, 450);
    assert_eq!(q.y, 0);
}

#[test]
fn aspect_matrix_never_exceeds_the_surface_or_collapses() {
    let surfaces = [res(320, 240), res(1920, 1080), res(1, 1), res(7, 13)];
    let sources = [
        res(1920, 1080),
        res(720, 576),
        res(1080, 1920),
        res(4096, 1716),
    ];
    for s in surfaces {
        for src in sources {
            let q = letterbox(src, s);
            assert!(q.width <= s.width && q.height <= s.height, "{q:?} in {s:?}");
            assert!(q.width > 0 && q.height > 0, "{q:?}");
            assert!(q.x + q.width <= s.width);
            assert!(q.y + q.height <= s.height);
        }
    }
}

#[test]
fn degenerate_input_gives_an_empty_quad() {
    assert_eq!(letterbox(res(0, 0), res(10, 10)).width, 0);
    assert_eq!(letterbox(res(10, 10), res(0, 5)).height, 0);
}

fn quad() -> Quad {
    Quad {
        x: 10,
        y: 20,
        width: 200,
        height: 100,
    }
}

#[test]
fn a_quad_holds_what_lies_inside() {
    assert!(quad().contains(10, 20));
    assert!(quad().contains(209, 119));
    assert!(!quad().contains(210, 20));
    assert!(!quad().contains(10, 120));
}

#[test]
fn timecode_rolls_over_at_the_frame_rate() {
    assert_eq!(timecode(Frame(0), FPS_60), "00:00:00:00");
    assert_eq!(timecode(Frame(59), FPS_60), "00:00:00:59");
    assert_eq!(timecode(Frame(60), FPS_60), "00:00:01:00");
    assert_eq!(timecode(Frame(3600 * 60), FPS_60), "01:00:00:00");
}

#[test]
fn fractional_rates_round_to_their_nominal_rate() {
    // 23.976 counts 24 frames per timecode second, like every NLE.
    let fps = Fps {
        num: 24_000,
        den: 1001,
    };
    assert_eq!(timecode(Frame(24), fps), "00:00:01:00");
}

#[test]
fn safe_areas_are_centred_inside_the_quad() {
    let o = OverlayConfig {
        timecode: false,
        safe_areas: true,
    }
    .build(None, FPS_60, quad());
    assert_eq!(o.rects.len(), 2);
    let action = o.rects[0].quad;
    assert_eq!(action.width, 180);
    assert_eq!(action.x, 10 + 10);
    let title = o.rects[1].quad;
    assert!(title.width < action.width);
    assert_eq!(action, inset(quad(), 90));
}

#[test]
fn disabled_overlays_produce_nothing() {
    let o = OverlayConfig::none().build(Some(Frame(1)), FPS_60, quad());
    assert_eq!(o, Overlay::default());
}

#[test]
fn a_source_in_step_with_the_clock_never_drops_or_repeats() {
    let mut b = backend();
    let mut p = Pacer::new();
    for i in 0..10 {
        assert_eq!(
            p.tick(Some(Frame(i)), &mut b).unwrap(),
            Pace::Presented(Frame(i))
        );
    }
    assert_eq!(
        p.stats(),
        PaceStats {
            presented: 10,
            dropped_late: 0,
            repeated: 0
        }
    );
}

#[test]
fn a_fast_source_drops_late_frames_to_catch_up() {
    let mut b = backend();
    let mut p = Pacer::new();
    p.tick(Some(Frame(4)), &mut b).unwrap();
    assert_eq!(p.stats().dropped_late, 4);
    assert_eq!(p.current().unwrap().position, Frame(4));
}

#[test]
fn a_frame_the_clock_has_already_passed_is_still_shown() {
    let mut b = backend();
    b.budget = Some(1);
    let mut p = Pacer::new();
    assert_eq!(
        p.tick(Some(Frame(3)), &mut b).unwrap(),
        Pace::Presented(Frame(0)),
        "the only frame available was discarded for being late"
    );
}

#[test]
fn a_frame_ahead_of_the_clock_waits_instead_of_being_shown_early() {
    let mut b = backend();
    let mut p = Pacer::new();
    p.tick(Some(Frame(0)), &mut b).unwrap();
    // Frame 1 is in the queue but the clock has not reached it.
    assert_eq!(
        p.tick(Some(Frame(0)), &mut b).unwrap(),
        Pace::Repeated(Frame(0))
    );
    assert_eq!(p.current().unwrap().position, Frame(0));
    // ...and it is not lost: it goes up on the tick it falls due.
    assert_eq!(
        p.tick(Some(Frame(1)), &mut b).unwrap(),
        Pace::Presented(Frame(1))
    );
}

#[test]
fn the_picture_never_steps_backwards() {
    let mut b = backend();
    let mut p = Pacer::new();
    p.tick(Some(Frame(5)), &mut b).unwrap();
    assert_eq!(p.current().unwrap().position, Frame(5));
    let pace = p.tick(Some(Frame(2)), &mut b).unwrap();
    assert_eq!(pace, Pace::Repeated(Frame(5)));
}

#[test]
fn a_starved_source_repeats_the_last_frame() {
    let mut b = backend();
    b.budget = Some(1);
    let mut p = Pacer::new();
    assert_eq!(
        p.tick(Some(Frame(0)), &mut b).unwrap(),
        Pace::Presented(Frame(0))
    );
    assert_eq!(
        p.tick(Some(Frame(1)), &mut b).unwrap(),
        Pace::Repeated(Frame(0))
    );
    assert_eq!(
        p.tick(Some(Frame(2)), &mut b).unwrap(),
        Pace::Repeated(Frame(0))
    );
    assert_eq!(p.stats().repeated, 2);
    assert_eq!(p.stats().presented, 1);
}

#[test]
fn nothing_presented_and_nothing_ready_is_empty_not_a_repeat() {
    let mut b = backend();
    b.budget = Some(0);
    let mut p = Pacer::new();
    assert_eq!(p.tick(Some(Frame(0)), &mut b).unwrap(), Pace::Empty);
    assert_eq!(p.stats().repeated, 0);
}

#[test]
fn a_stopped_clock_holds_the_picture_and_pulls_nothing() {
    let mut b = backend();
    let mut p = Pacer::new();
    p.tick(Some(Frame(0)), &mut b).unwrap();
    let before = b.audio_clock_position();
    assert_eq!(p.tick(None, &mut b).unwrap(), Pace::Repeated(Frame(0)));
    assert_eq!(
        b.audio_clock_position(),
        before,
        "a paused pacer pulled a frame"
    );
}

#[test]
fn draining_is_bounded_per_tick() {
    let mut b = backend();
    let mut p = Pacer::new();
    p.set_max_pulls_per_tick(3);
    let pace = p.tick(Some(Frame(1_000)), &mut b).unwrap();
    assert_eq!(pace, Pace::Presented(Frame(2)), "the newest of three pulls");
    assert_eq!(p.stats().dropped_late, 2);
}

#[test]
fn scrubbing_shows_a_frame_without_a_clock() {
    let b = backend();
    let f = b.frame_at(Frame(42));
    let mut p = Pacer::new();
    p.show(f);
    assert_eq!(p.current().unwrap().position, Frame(42));
    p.clear();
    assert!(p.current().is_none());
}

#[test]
fn a_restart_accepts_an_earlier_picture() {
    let mut p = Pacer::new();
    p.show(black(Frame(50), res(1, 1)));
    p.restart();
    let mut b = backend();
    assert_eq!(
        p.tick(Some(Frame(0)), &mut b).unwrap(),
        Pace::Presented(Frame(0))
    );
}

#[test]
fn a_failing_source_is_reported() {
    let mut b = Mock::new(res(1, 1));
    let mut p = Pacer::new();
    assert_eq!(
        p.tick(Some(Frame(0)), &mut b).unwrap_err(),
        PresentError::Pull("the preview has not started".into())
    );
    assert!(PresentError::Pull("no signal".into()).message().contains("no signal"));
}

#[test]
fn a_backward_pass_waits_for_the_clock_to_fall() {
    let mut p = Pacer::new();
    p.set_direction(Direction::Backward);
    p.show(black(Frame(50), res(1, 1)));
    let mut b = backend();
    b.next = Some(40);
    b.budget = Some(1);
    assert_eq!(
        p.tick(Some(Frame(45)), &mut b).unwrap(),
        Pace::Repeated(Frame(50))
    );
    assert_eq!(
        p.tick(Some(Frame(40)), &mut b).unwrap(),
        Pace::Presented(Frame(40))
    );
}

fn stats(presented: u64, dropped_late: u64) -> PaceStats {
    PaceStats {
        presented,
        dropped_late,
        repeated: 0,
    }
}

fn run(
    policy: &mut AdaptiveScale,
    scale: &mut PreviewScale,
    acc: &mut PaceStats,
    windows: u64,
    drop_per_tick: u64,
) -> Vec<ScaleChange> {
    let mut out = Vec::new();
    for _ in 0..windows * WINDOW {
        acc.presented += 1;
        acc.dropped_late += drop_per_tick;
        if let Some(change) = policy.observe(*acc, *scale) {
            *scale = change.scale;
            out.push(change);
        }
    }
    out
}

#[test]
fn a_clean_window_never_changes_the_scale() {
    let mut policy = AdaptiveScale::new();
    let mut scale = PreviewScale::Full;
    let mut acc = stats(0, 0);
    assert!(run(&mut policy, &mut scale, &mut acc, 4, 0).is_empty());
    assert_eq!(scale, PreviewScale::Full);
}

#[test]
fn sustained_drops_step_down_one_level_per_window() {
    let mut policy = AdaptiveScale::new();
    let mut scale = PreviewScale::Full;
    let mut acc = stats(0, 0);
    let changes = run(&mut policy, &mut scale, &mut acc, 2, 1);
    assert_eq!(changes.len(), 2, "one step per window, not per tick");
    assert!(changes.iter().all(|c| c.reduced));
    assert_eq!(scale, PreviewScale::Quarter);
    // Quarter is the floor: it cannot report a change it cannot make.
    assert!(run(&mut policy, &mut scale, &mut acc, 2, 1).is_empty());
}

#[test]
fn catching_up_restores_only_what_the_policy_took() {
    let mut policy = AdaptiveScale::new();
    let mut scale = PreviewScale::Full;
    let mut acc = stats(0, 0);
    run(&mut policy, &mut scale, &mut acc, 1, 1);
    assert_eq!(scale, PreviewScale::Half);
    let early = run(
        &mut policy,
        &mut scale,
        &mut acc,
        u64::from(CLEAN_WINDOWS) - 1,
        0,
    );
    assert!(early.is_empty(), "one clean window is not evidence");
    let back = run(&mut policy, &mut scale, &mut acc, 1, 0);
    assert_eq!(scale, PreviewScale::Full);
    assert_eq!(back.len(), 1);
    assert!(!back[0].reduced);
    assert!(back[0].message().ends_with('.'));
    // Nothing left to give back, so a further clean window is silent.
    assert!(run(&mut policy, &mut scale, &mut acc, 2, 0).is_empty());
}

#[test]
fn a_scale_the_policy_did_not_take_is_never_given_back() {
    let mut policy = AdaptiveScale::new();
    let mut scale = PreviewScale::Quarter;
    let mut acc = stats(0, 0);
    assert!(run(&mut policy, &mut scale, &mut acc, 3, 0).is_empty());
    assert_eq!(scale, PreviewScale::Quarter, "the user's scale was raised");
    assert!(policy.release(scale).is_none());
}

#[test]
fn stopping_playback_gives_back_every_step_at_once() {
    let mut policy = AdaptiveScale::new();
    let mut scale = PreviewScale::Full;
    let mut acc = stats(0, 0);
    run(&mut policy, &mut scale, &mut acc, 2, 1);
    assert_eq!(scale, PreviewScale::Quarter);
    let released = policy.release(scale).unwrap();
    assert_eq!(released.scale, PreviewScale::Full);
    assert!(!released.reduced);
    assert!(policy.release(released.scale).is_none());
}

#[test]
fn alternating_windows_never_step_back_up() {
    let mut policy = AdaptiveScale::new();
    let mut scale = PreviewScale::Full;
    let mut acc = stats(0, 0);
    let mut changes = Vec::new();
    for _ in 0..8 {
        changes.extend(run(&mut policy, &mut scale, &mut acc, 1, 1));
        changes.extend(run(&mut policy, &mut scale, &mut acc, 1, 0));
    }
    assert!(
        changes.iter().all(|c| c.reduced),
        "a scale given back between two bad windows is a restart per second"
    );
    assert_eq!(scale, PreviewScale::Quarter);
}

#[test]
fn a_short_hitch_inside_a_window_is_not_a_reduction() {
    let mut policy = AdaptiveScale::new();
    let mut acc = stats(0, 0);
    for i in 0..WINDOW {
        acc.presented += 1;
        if i == 10 {
            acc.dropped_late += 1;
        }
        assert!(policy.observe(acc, PreviewScale::Full).is_none());
    }
    policy.reset(acc);
    assert_eq!(policy.baseline, acc);
}

#[test]
fn a_presented_frame_fills_its_quad_and_leaves_black_bars() {
    let mut p = Presenter::new(Host::Embedded, res(20, 20), FPS_60);
    let frame = VideoFrame {
        position: Frame(3),
        width: 4,
        height: 2,
        rgba: [7u8, 8, 9, 255].repeat(8),
    };
    let out = p.present_frame(frame).unwrap();
    assert_eq!(
        out.quad,
        Quad {
            x: 0,
            y: 5,
            width: 20,
            height: 10
        }
    );
    assert_eq!(out.pixel(10, 10), [7, 8, 9, 255]);
    assert_eq!(out.pixel(10, 0), [0, 0, 0, 255], "bar is not black");
    assert_eq!(out.position, Some(Frame(3)));
}

#[test]
fn hosts_produce_identical_video_pixels() {
    let frame = VideoFrame {
        position: Frame(9),
        width: 6,
        height: 4,
        rgba: (0..24u8).flat_map(|i| [i, i, i, 255]).collect(),
    };
    let mut embedded = Presenter::new(Host::Embedded, res(31, 17), FPS_60);
    let mut detached = Presenter::new(Host::Detached, res(31, 17), FPS_60);
    let a = embedded.present_frame(frame.clone()).unwrap();
    let b = detached.present_frame(frame).unwrap();
    assert_eq!(a.pixels, b.pixels, "the two host paths have diverged");
    assert_eq!(a.quad, b.quad);
    // The only permitted difference:
    assert!(a.overlay.timecode.is_some());
    assert_eq!(b.overlay, Overlay::default());
}

#[test]
fn an_overlay_change_reuses_the_composed_pixels() {
    let mut p = Presenter::new(Host::Embedded, res(64, 64), FPS_60);
    let frame = VideoFrame {
        position: Frame(12),
        width: 8,
        height: 4,
        rgba: [1u8, 2, 3, 255].repeat(32),
    };
    let first = p.present_frame(frame).unwrap();
    assert_eq!(p.blits_skipped(), 0);

    p.set_overlay_config(OverlayConfig {
        safe_areas: true,
        ..OverlayConfig::default()
    });
    // Nothing new arrived, so the picture is the one already composed.
    let mut backend = Mock::new(res(8, 4));
    let again = p.present(&mut backend).unwrap();

    assert_eq!(p.blits_skipped(), 1, "the surface was blitted again");
    assert!(Arc::ptr_eq(&first.pixels, &again.pixels));
    assert_eq!(
        first.pixels_id, again.pixels_id,
        "identical pixels must keep their id, or the host re-uploads"
    );
    assert_ne!(first.overlay, again.overlay, "the overlay did not follow");
}

#[test]
fn a_planar_frame_is_letterboxed_and_described_without_being_composed() {
    let mut p = Presenter::new(Host::Embedded, res(20, 20), FPS_60);
    let frame = Arc::new(PlanarFrame {
        position: Frame(3),
        width: 4,
        height: 2,
        y: vec![120; 8],
        u: vec![128; 2],
        v: vec![128; 2],
    });
    let out = p.present_planar(Arc::clone(&frame)).unwrap();
    assert!(out.pixels.is_empty(), "the planar path composed a surface");
    assert_eq!(
        out.quad,
        Quad {
            x: 0,
            y: 5,
            width: 20,
            height: 10
        },
        "a planar frame must letterbox exactly as an RGBA one does"
    );
    assert_eq!(out.position, Some(Frame(3)));
    assert_eq!(out.overlay.timecode.as_deref(), Some("00:00:00:03"));
    assert!(out.video.is_some_and(|v| Arc::ptr_eq(&v, &frame)));
}

#[test]
fn a_short_plane_is_refused_rather_than_uploaded() {
    let mut p = Presenter::new(Host::Embedded, res(8, 8), FPS_60);
    let bad = Arc::new(PlanarFrame {
        position: Frame(0),
        width: 100,
        height: 100,
        y: vec![0; 4],
        u: Vec::new(),
        v: Vec::new(),
    });
    assert!(matches!(
        p.present_planar(bad),
        Err(PresentError::MalformedFrame { .. })
    ));
}

#[test]
fn a_malformed_frame_is_refused_rather_than_read_past_its_end() {
    let mut p = Presenter::new(Host::Embedded, res(8, 8), FPS_60);
    let bad = VideoFrame {
        position: Frame(0),
        width: 100,
        height: 100,
        rgba: vec![0; 16],
    };
    assert!(matches!(
        p.present_frame(bad),
        Err(PresentError::MalformedFrame { .. })
    ));
}

#[test]
fn nothing_presented_yet_composes_an_all_black_surface() {
    let mut p = Presenter::new(Host::Embedded, res(4, 4), FPS_60);
    let mut b = Mock::new(res(4, 4));
    let out = p.present(&mut b).unwrap();
    assert_eq!(out.pace, Pace::Empty);
    assert!(out.pixels.chunks_exact(4).all(|p| p == [0, 0, 0, 255]));
}

#[test]
fn playback_presents_the_frame_the_clock_asked_for() {
    let mut b = Mock::started(res(4, 2));
    let mut p = Presenter::new(Host::Embedded, res(8, 4), FPS_60);
    let out = p.present(&mut b).unwrap();
    assert_eq!(out.position, Some(Frame(0)));
    assert_eq!(out.pixel(4, 2), signature(Frame(0)));
    assert_eq!(out.overlay.timecode.as_deref(), Some("00:00:00:00"));
}

#[test]
fn auto_scale_never_decodes_below_what_is_drawn() {
    let source = res(1920, 1080);
    let mut p = Presenter::new(Host::Embedded, res(1920, 1080), FPS_60);
    p.auto_scale(source);
    assert_eq!(p.scale(), PreviewScale::Full);
    p.resize(res(900, 500));
    p.auto_scale(source);
    assert_eq!(p.scale(), PreviewScale::Half);
    p.resize(res(200, 100));
    p.auto_scale(source);
    assert_eq!(p.scale(), PreviewScale::Quarter);
}

#[test]
fn a_zero_sized_surface_composes_nothing_and_does_not_panic() {
    let mut p = Presenter::new(Host::Embedded, res(0, 0), FPS_60);
    let out = p.present_frame(black(Frame(0), res(4, 4))).unwrap();
    assert!(out.pixels.is_empty());
    assert_eq!(out.quad.width, 0);
}

#[test]
fn playback_records_one_presentation_per_tick() {
    let mut b = Mock::started(res(4, 2));
    let mut h = HeadlessPresenter::new(res(8, 4), FPS_60);
    for _ in 0..5 {
        h.tick(&mut b).unwrap();
    }
    assert_eq!(h.frames().len(), 5);
    assert_eq!(
        h.positions(),
        (0..5).map(|i| Some(Frame(i))).collect::<Vec<_>>()
    );
    h.show(black(Frame(40), res(4, 2))).unwrap();
    assert_eq!(h.last().unwrap().position, Some(Frame(40)));
}

#[test]
fn a_jittery_source_never_shows_a_frame_out_of_order() {
    let mut b = backend();
    let mut h = HeadlessPresenter::new(res(16, 8), FPS_60);
    // Alternate starving and delivering: the classic jitter shape.
    for tick in 0..20u64 {
        b.budget = Some(u64::from(tick % 2 == 0));
        h.tick(&mut b).expect("tick");
    }
    let mut last = None;
    for pos in h.positions().into_iter().flatten() {
        if let Some(prev) = last {
            assert!(pos >= prev, "presented {pos:?} after {prev:?}");
        }
        last = Some(pos);
    }
    let stats = h.presenter().stats();
    assert!(stats.repeated > 0, "jitter produced no repeats");
    assert_eq!(stats.presented + stats.repeated, 20);
}

#[test]
fn a_starved_source_holds_the_last_picture_rather_than_going_black() {
    let mut b = backend();
    let mut h = HeadlessPresenter::new(res(16, 8), FPS_60);
    b.budget = Some(1);
    h.tick(&mut b).expect("tick");
    let first = h.last().expect("a presentation").pixels.clone();
    for _ in 0..5 {
        h.tick(&mut b).expect("tick");
    }
    let held = h.last().expect("a presentation");
    assert_eq!(held.pixels, first);
    assert!(matches!(held.pace, Pace::Repeated(_)));
}

#[test]
fn both_hosts_present_the_same_playback_pixels() {
    let mut ba = backend();
    let mut bb = backend();
    let mut embedded = HeadlessPresenter::with_host(Host::Embedded, res(21, 9), FPS_60);
    let mut detached = HeadlessPresenter::with_host(Host::Detached, res(21, 9), FPS_60);
    for _ in 0..8 {
        embedded.tick(&mut ba).expect("tick");
        detached.tick(&mut bb).expect("tick");
    }
    for (a, b) in embedded.frames().iter().zip(detached.frames()) {
        assert_eq!(a.pixels, b.pixels);
        assert_eq!(a.position, b.position);
    }
    assert!(embedded.last().expect("frame").overlay.timecode.is_some());
    assert!(detached.last().expect("frame").overlay.timecode.is_none());
    assert!(Host::Embedded.allows_overlay() && !Host::Detached.allows_overlay());
}

#[test]
fn resizing_mid_playback_recomposes_without_dropping_the_picture() {
    let mut b = backend();
    let mut h = HeadlessPresenter::new(res(16, 8), FPS_60);
    h.tick(&mut b).expect("tick");
    h.presenter_mut().resize(res(40, 40));
    h.tick(&mut b).expect("tick");
    let last = h.last().expect("a presentation");
    assert_eq!(last.surface, res(40, 40));
    assert_eq!(last.quad.width, 40);
    assert_eq!(last.quad.height, 20);
}

#[test]
fn a_malformed_frame_is_not_uploaded() {
    let mut frame = PlanarFrame {
        position: Frame(0),
        width: 64,
        height: 32,
        y: vec![16; 64 * 32],
        u: vec![90; 32 * 16],
        v: vec![200; 32 * 16],
    };
    let plan = plan_upload(None, &frame).unwrap();
    assert!(plan.allocate);
    assert_eq!(plan.luma, (64, 32));
    assert_eq!(plan.chroma, (32, 16));
    assert!(!plan_upload(Some((64, 32)), &frame).unwrap().allocate);
    assert!(plan_upload(Some((64, 31)), &frame).unwrap().allocate);
    frame.u.clear();
    assert!(
        plan_upload(None, &frame).is_none(),
        "a short plane must be refused, not copied past its end"
    );
    assert!(SHADER_TOLERANCE < CHROMA_UPSAMPLE_TOLERANCE);
}

#[test]
fn a_tick_can_be_driven_by_its_answers() {
    let frame = |at: u64| VideoFrame {
        position: Frame(at),
        width: 1,
        height: 1,
        rgba: vec![1, 2, 3, 255],
    };
    let mut p = Pacer::new();
    // Two late frames, then one that is ahead: the newer of the two goes up.
    let Step::Pull(pass) = p.begin(Some(Frame(5))) else {
        panic!("nothing was pulled");
    };
    let Ok(Step::Pull(pass)) = p.answer(pass, Ok(Some(frame(1)))) else {
        panic!("a late frame ended the tick");
    };
    let Ok(Step::Pull(pass)) = p.answer(pass, Ok(Some(frame(3)))) else {
        panic!("a late frame ended the tick");
    };
    match p.answer(pass, Ok(Some(frame(9)))) {
        Ok(Step::Shown(pace)) => assert_eq!(pace, Pace::Presented(Frame(3))),
        other => panic!("{other:?}"),
    }
    assert_eq!(p.stats().dropped_late, 1);
    // The frame that was ahead is held back, and asked for nothing until due.
    match p.begin(Some(Frame(8))) {
        Step::Shown(pace) => assert_eq!(pace, Pace::Repeated(Frame(3))),
        other => panic!("{other:?}"),
    }
    let Step::Pull(pass) = p.begin(Some(Frame(9))) else {
        panic!("nothing was pulled");
    };
    assert_eq!(pass.left, 8);
    match p.answer(pass, Err("gone".to_string())) {
        Err(PresentError::Pull(reason)) => assert_eq!(reason, "gone"),
        other => panic!("{other:?}"),
    }
}

#[test]
fn a_step_back_needs_three_clean_windows_after_the_last_change() {
    let mut policy = AdaptiveScale::default();
    assert_eq!(policy, AdaptiveScale::new());
    assert_eq!(policy.baseline, stats(0, 0));
    let mut scale = PreviewScale::Full;
    let mut acc = stats(0, 0);
    let down = run(&mut policy, &mut scale, &mut acc, 2, 1);
    assert_eq!(down.len(), 2);
    assert_eq!(scale, PreviewScale::Quarter);
    assert!(run(&mut policy, &mut scale, &mut acc, 2, 0).is_empty());
    assert_eq!(run(&mut policy, &mut scale, &mut acc, 1, 0).len(), 1);
    assert_eq!(scale, PreviewScale::Half);
    assert!(run(&mut policy, &mut scale, &mut acc, 2, 0).is_empty());
    assert_eq!(run(&mut policy, &mut scale, &mut acc, 1, 0).len(), 1);
    // Everything that was taken has been given back.
    assert!(run(&mut policy, &mut scale, &mut acc, 9, 0).is_empty());
    assert_eq!(scale, PreviewScale::Full);
}

/// A source that counts what it is asked.
struct Counting {
    clock: Option<Frame>,
    queue: Vec<u64>,
    asked: u32,
}

impl PreviewSource for Counting {
    fn audio_clock_position(&self) -> Option<Frame> {
        self.clock
    }

    fn next_preview_frame(&mut self) -> Result<Option<VideoFrame>, String> {
        self.asked += 1;
        if self.queue.is_empty() {
            return Ok(None);
        }
        let at = self.queue.remove(0);
        Ok(Some(black(Frame(at), res(2, 2))))
    }
}

#[test]
fn a_tick_asks_for_no_more_than_it_needs() {
    let mut source = Counting {
        clock: None,
        queue: vec![1, 2, 3, 7, 8],
        asked: 0,
    };
    let mut p = Pacer::new();
    assert_eq!(p.tick(None, &mut source), Ok(Pace::Empty));
    assert_eq!(source.asked, 0, "the sound stands still");
    // Up to the frame that is due, and no further.
    assert_eq!(
        p.tick(Some(Frame(3)), &mut source),
        Ok(Pace::Presented(Frame(3)))
    );
    assert_eq!(source.asked, 3);
    // One frame that is ahead, which is held back.
    assert_eq!(
        p.tick(Some(Frame(4)), &mut source),
        Ok(Pace::Repeated(Frame(3)))
    );
    assert_eq!(source.asked, 4);
    assert_eq!(
        p.tick(Some(Frame(6)), &mut source),
        Ok(Pace::Repeated(Frame(3)))
    );
    assert_eq!(source.asked, 4, "a frame ahead of the clock is waiting");
    assert_eq!(
        p.tick(Some(Frame(7)), &mut source),
        Ok(Pace::Presented(Frame(7)))
    );
    assert_eq!(source.asked, 5);
}

#[test]
fn a_presenter_follows_the_clock_of_its_source() {
    let mut source = Counting {
        clock: Some(Frame(2)),
        queue: vec![1, 2, 3],
        asked: 0,
    };
    let mut p = Presenter::new(Host::Detached, res(4, 4), FPS_60);
    let out = p.present(&mut source).unwrap();
    assert_eq!(out.position, Some(Frame(2)));
    assert_eq!(source.asked, 2);
    source.clock = None;
    let out = p.present(&mut source).unwrap();
    assert_eq!(out.pace, Pace::Repeated(Frame(2)));
    assert_eq!(source.asked, 2);
}

#[test]
fn a_safe_area_may_lie_in_a_picture_that_runs_off_the_end() {
    let q = inset(
        Quad {
            x: u32::MAX - 20,
            y: 0,
            width: 100,
            height: 50,
        },
        80,
    );
    assert_eq!((q.x, q.width), (u32::MAX - 10, 80));
    assert_eq!((q.y, q.height), (5, 40));
}
