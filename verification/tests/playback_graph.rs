//! Driving a graph: caches, decoding ahead, acceleration, exports and errors.

use davimci::class::ErrorClass;
use davimci::frames::{PlanarFrame, PreviewScale, VideoFrame};
use davimci::mlt::cache::{FrameCache, DEFAULT_BUDGET_BYTES};
use davimci::mlt::convert::{count, frames, mlt_int, size};
use davimci::mlt::error::{BackendError, MltError};
use davimci::mlt::export::{
    begin_render, consumer_settings, export_range, plan_render, progress, resolve_encoder,
    trial_key, trial_name, trial_settings, RenderProgress, RenderSettings, RenderState,
};
use davimci::mlt::graph::SettingValue;
use davimci::mlt::hwaccel::{
    render_nodes, Acceleration, DecodePolicy, EncodeChoice, EncodePolicy, HardwareEncode,
};
use davimci::mlt::parallel::{
    decode_threads, decode_threads_for, override_of, preview_real_time, preview_real_time_for,
};
use davimci::mlt::prefetch::PrefetchState;
use davimci::mlt::queue::{find_in, PreviewQueue, BACKWARD_LIMIT, FORWARD_LIMIT};
use davimci::mlt::run::{black, Pulled, Run};
use davimci::mlt::scrub::{blend_cost, Plan, Scrub};
use davimci::mlt::source::{decode_facts, describe, StreamFacts, StreamKind};
use davimci::mlt::stills::{Ahead, Next, Stills};
use davimci::mlt::transport::{
    check_graph, check_preview, check_source, check_start, clock_position, plan_rate,
    preview_position, preview_settings, rate_refusal, sound_services, RateChange,
};
use davimci::model::{Fps, Frame, Resolution};

fn frame(at: u64) -> VideoFrame {
    black(
        Frame(at),
        Resolution {
            width: 4,
            height: 4,
        },
    )
}

fn frame_bytes() -> usize {
    frame(0).rgba.len()
}

#[test]
fn a_black_frame_is_opaque_and_whole() {
    let f = frame(9);
    assert_eq!(f.position, Frame(9));
    assert!(f.is_well_formed());
    assert_eq!(&f.rgba[0..4], &[0, 0, 0, 255]);
    assert_eq!(f.rgba.len(), 64);
}

#[test]
fn a_cached_frame_comes_back_at_the_same_scale_and_not_another() {
    let mut c = FrameCache::default();
    c.insert(PreviewScale::Full, frame(7));
    assert_eq!(
        c.get(Frame(7), PreviewScale::Full).unwrap().position,
        Frame(7)
    );
    assert!(c.get(Frame(7), PreviewScale::Half).is_none());
    assert!(c.get(Frame(8), PreviewScale::Full).is_none());
}

#[test]
fn two_scales_are_held_apart_rather_than_mixed_or_discarded() {
    let mut c = FrameCache::default();
    c.insert(PreviewScale::Full, frame(1));
    c.insert(PreviewScale::Half, frame(2));
    assert!(c.get(Frame(1), PreviewScale::Half).is_none());
    assert!(c.get(Frame(2), PreviewScale::Full).is_none());
    assert!(c.get(Frame(1), PreviewScale::Full).is_some());
    assert!(c.get(Frame(2), PreviewScale::Half).is_some());
    assert_eq!(c.len(), 2);
}

#[test]
fn a_thumbnail_pull_does_not_evict_the_preview_run() {
    let mut c = FrameCache::default();
    for i in 0..12 {
        c.insert(PreviewScale::Full, frame(i));
    }
    c.insert(PreviewScale::Quarter, frame(400));
    for i in 0..12 {
        assert!(c.get(Frame(i), PreviewScale::Full).is_some(), "lost {i}");
    }
}

#[test]
fn the_budget_evicts_oldest_first_and_keeps_the_newest_run() {
    let mut c = FrameCache::with_budget(frame_bytes() * 3);
    for i in 0..5 {
        c.insert(PreviewScale::Full, frame(i));
    }
    assert_eq!(c.len(), 3);
    assert!(c.get(Frame(0), PreviewScale::Full).is_none());
    assert!(c.get(Frame(1), PreviewScale::Full).is_none());
    for i in 2..5 {
        assert!(c.get(Frame(i), PreviewScale::Full).is_some(), "evicted {i}");
    }
}

#[test]
fn inserting_the_same_frame_twice_does_not_double_count_it() {
    let mut c = FrameCache::with_budget(frame_bytes() * 2);
    c.insert(PreviewScale::Full, frame(3));
    c.insert(PreviewScale::Full, frame(3));
    assert_eq!(c.len(), 1);
    assert_eq!(c.bytes(), frame_bytes());
}

#[test]
fn a_frame_bigger_than_the_budget_is_refused_not_stored_alone() {
    let mut c = FrameCache::with_budget(4);
    c.insert(PreviewScale::Full, frame(0));
    assert_eq!(c.len(), 0);
    assert_eq!(c.bytes(), 0);
}

#[test]
fn clearing_frees_everything_it_was_holding() {
    let mut c = FrameCache::default();
    c.insert(PreviewScale::Full, frame(0));
    c.clear();
    assert_eq!(c.len(), 0);
    assert_eq!(c.bytes(), 0);
    assert!(c.get(Frame(0), PreviewScale::Full).is_none());
}

#[test]
fn the_default_budget_is_ninety_six_mebibytes() {
    assert_eq!(DEFAULT_BUDGET_BYTES, 96 * 1024 * 1024);
}

#[test]
fn a_position_mlt_cannot_address_saturates_instead_of_wrapping() {
    assert_eq!(mlt_int(u64::MAX), i32::MAX);
    assert_eq!(mlt_int(5u64), 5);
}

#[test]
fn a_negative_position_reads_back_as_frame_zero() {
    assert_eq!(frames(-1), 0);
    assert_eq!(frames(7), 7);
    assert_eq!(size(-3), 0);
    assert_eq!(count(-3), 0);
}

#[test]
fn mlt_errors_arrive_classified_and_readable() {
    let err: BackendError = MltError::NoFrame.into_backend();
    assert_eq!(err.class(), ErrorClass::Recoverable);
    assert!(err.user_message().ends_with('.') || !err.user_message().is_empty());

    let err: BackendError = MltError::Init.into_backend();
    assert_eq!(err.class(), ErrorClass::Recoverable);
    assert!(
        !err.user_message().contains("Init"),
        "raw Debug output must never reach the status line"
    );
}

#[test]
fn every_graph_error_has_its_sentence() {
    let all = [
        MltError::Init,
        MltError::NoProducer {
            service: "avformat".into(),
            resource: "/a\"b".into(),
        },
        MltError::NoFilter {
            service: "volume".into(),
        },
        MltError::NoConsumer {
            service: "sdl2".into(),
        },
        MltError::PlaylistOp { code: -3 },
        MltError::AttachFailed,
        MltError::ConnectFailed,
        MltError::ConsumerStart,
        MltError::ListenFailed,
        MltError::NoFrame,
        MltError::NoImage,
        MltError::WrongFormat { format: 4 },
        MltError::BadString {
            value: "a\0b".into(),
        },
    ];
    for e in all {
        assert!(!e.message().is_empty(), "{e:?}");
    }
    assert!(MltError::PlaylistOp { code: -3 }.message().contains("-3"));
    // A value is quoted the way a developer would read it.
    assert!(MltError::BadString {
        value: "a\0b".into()
    }
    .message()
    .contains("\"a\\0b\""));
}

fn with_device(policy: DecodePolicy) -> Acceleration {
    Acceleration::with_devices(policy, &["/dev/dri/renderD128".to_string()])
}

#[test]
fn no_device_degrades_to_software_with_one_sentence() {
    let accel = Acceleration::with_devices(DecodePolicy::Auto, &[]);
    let status = accel.status();
    assert!(!status.is_hardware());
    assert!(status.detail.ends_with('.'));
    assert!(accel.choose_decoder(Some("h264"), 1920 * 1080).is_none());
}

#[test]
fn a_device_that_cannot_decode_the_codec_stays_on_software() {
    let accel = with_device(DecodePolicy::Auto);
    assert!(accel.status().is_hardware());
    // Intra-only and unknown codecs are not worth the readback.
    assert!(accel.choose_decoder(Some("prores"), 3840 * 2160).is_none());
    assert!(accel.choose_decoder(None, 3840 * 2160).is_none());
}

#[test]
fn a_mid_session_failure_is_sticky_and_recoverable() {
    let mut accel = with_device(DecodePolicy::Auto);
    assert!(accel.choose_decoder(Some("hevc"), 3840 * 2160).is_some());
    let status = accel.record_failure("the VAAPI driver stopped responding");
    assert!(!status.is_hardware());
    assert!(status.detail.ends_with('.'));
    assert!(accel.choose_decoder(Some("hevc"), 3840 * 2160).is_none());
}

#[test]
fn an_export_that_asks_for_nothing_gets_the_software_encoder() {
    let accel = with_device(DecodePolicy::Auto);
    assert_eq!(
        accel.encoder_for("libx264", HardwareEncode::Off),
        EncodeChoice::Software
    );
    // The session default is cpu, so `Preferred` alone changes nothing.
    assert_eq!(
        accel.encoder_for("libx264", HardwareEncode::Preferred),
        EncodeChoice::Software
    );
}

#[test]
fn set_encode_auto_substitutes_the_encoder_for_the_same_codec() {
    let mut accel = with_device(DecodePolicy::Cpu);
    let status = accel.set_encode_policy(EncodePolicy::Auto);
    assert_eq!(status.encode, EncodePolicy::Auto);
    assert_eq!(
        accel.encoder_for("libx265", HardwareEncode::Preferred),
        EncodeChoice::Hardware {
            encoder: "hevc_vaapi".into(),
            device: "/dev/dri/renderD128".into(),
        }
    );
    assert!(matches!(
        accel.encoder_for("libx264", HardwareEncode::Off),
        EncodeChoice::Hardware { .. }
    ));
    assert_eq!(
        accel.encoder_for("prores_ks", HardwareEncode::Preferred),
        EncodeChoice::Software
    );
}

#[test]
fn a_required_hardware_encode_is_refused_rather_than_downgraded() {
    let accel = with_device(DecodePolicy::Cpu);
    // Required beats the session policy: the preset is binding.
    assert!(matches!(
        accel.encoder_for("libx264", HardwareEncode::Required),
        EncodeChoice::Hardware { .. }
    ));
    let EncodeChoice::Refused(reason) = accel.encoder_for("prores_ks", HardwareEncode::Required)
    else {
        panic!("a codec with no hardware encoder must refuse");
    };
    assert!(reason.ends_with('.'));

    let none = Acceleration::with_devices(DecodePolicy::Cpu, &[]);
    let EncodeChoice::Refused(reason) = none.encoder_for("libx264", HardwareEncode::Required)
    else {
        panic!("a machine with no device must refuse a required hardware encode");
    };
    assert!(reason.ends_with('.'));
    // The same export without the requirement still runs.
    assert_eq!(
        none.encoder_for("libx264", HardwareEncode::Preferred),
        EncodeChoice::Software
    );
}

#[test]
fn the_cpu_policy_never_chooses_hardware() {
    let accel = with_device(DecodePolicy::Cpu);
    assert!(accel.choose_decoder(Some("h264"), 3840 * 2160).is_none());
    assert!(!accel.status().is_hardware());
}

#[test]
fn a_small_picture_stays_on_software_because_readback_dominates() {
    let accel = with_device(DecodePolicy::Auto);
    assert!(accel.choose_decoder(Some("h264"), 640 * 480).is_none());
    assert!(accel.choose_decoder(Some("h264"), 1920 * 1080).is_some());
}

#[test]
fn a_codec_is_known_in_either_case() {
    let accel = with_device(DecodePolicy::Auto);
    let choice = accel.choose_decoder(Some("H264"), 1280 * 720).unwrap();
    assert_eq!(choice.method, "vaapi");
    assert_eq!(choice.device, "/dev/dri/renderD128");
}

#[test]
fn asking_for_auto_again_retries_after_a_failure() {
    let mut accel = with_device(DecodePolicy::Auto);
    accel.record_failure("the device disappeared");
    let status = accel.set_policy(DecodePolicy::Auto);
    assert!(status.is_hardware());
    assert_eq!(accel.policy(), DecodePolicy::Auto);
}

#[test]
fn only_render_nodes_are_offered() {
    let nodes = render_nodes(&[
        "card0".to_string(),
        "renderD129".to_string(),
        "renderD128".to_string(),
    ]);
    assert_eq!(
        nodes,
        vec!["renderD128".to_string(), "renderD129".to_string()]
    );
}

#[test]
fn a_missing_device_directory_is_not_an_error() {
    assert!(render_nodes(&[]).is_empty());
}

#[test]
fn a_tried_encoder_is_remembered() {
    let mut accel = with_device(DecodePolicy::Auto);
    assert_eq!(accel.encoder_verified("h264_vaapi"), None);
    accel.mark_encoder("h264_vaapi", false);
    assert_eq!(accel.encoder_verified("h264_vaapi"), Some(false));
    accel.mark_encoder("h264_vaapi", true);
    assert_eq!(accel.encoder_verified("h264_vaapi"), Some(true));
    assert!(Acceleration::encoder_refusal("h264_vaapi").contains("h264_vaapi"));
    assert_eq!(accel.encode_policy(), EncodePolicy::Cpu);
}

#[test]
fn a_single_core_machine_asks_for_one_thread_of_each() {
    assert_eq!(decode_threads_for(1), 1);
    assert_eq!(preview_real_time_for(1), 1);
}

#[test]
fn decode_threads_never_exceed_what_mlt_accepts() {
    assert_eq!(decode_threads_for(64), 4);
}

#[test]
fn preview_processing_stays_single_threaded_and_dropping() {
    for c in 1..=64 {
        assert_eq!(preview_real_time_for(c), 1, "{c} cores changed real_time");
    }
}

#[test]
fn every_multicore_machine_decodes_on_more_than_mlts_one_thread() {
    for c in 2..=16 {
        assert!(decode_threads_for(c) > 1, "{c} cores decoded on one thread");
    }
}

#[test]
fn a_setting_beats_the_machine() {
    assert_eq!(override_of(Some("12")), Some(12));
    assert_eq!(override_of(Some("-2")), Some(-2));
    assert_eq!(override_of(Some("many")), None);
    assert_eq!(override_of(None), None);
    assert_eq!(decode_threads(Some("7"), 2), 7);
    assert_eq!(decode_threads(None, 64), 4);
    assert_eq!(preview_real_time(Some("-1"), 8), -1);
    assert_eq!(preview_real_time(None, 8), 1);
}

#[test]
fn a_cold_decode_cannot_aim_a_backwards_shuttle_at_frame_zero() {
    let reach = 48;
    assert!(
        blend_cost(1, 200, 1, reach) < 200,
        "a single slow decode set the aim to the whole clock travel"
    );
    assert!(blend_cost(1, 10_000, 1, reach) <= reach);
    assert_eq!(blend_cost(1, 0, 1, reach), 1, "a stalled clock costs one");
    assert_eq!(blend_cost(8, 8, 1, reach), 8, "a steady cost should hold");
}

#[test]
fn a_preview_queue_drops_its_oldest_picture() {
    let mut q = PreviewQueue::new();
    for i in 0..(FORWARD_LIMIT as u64 + 3) {
        q.played(frame(i));
    }
    let mut seen = Vec::new();
    while let Some(f) = q.pop() {
        seen.push(f.position.0);
    }
    assert_eq!(seen.len(), FORWARD_LIMIT);
    assert_eq!(seen.first(), Some(&3));
    assert_eq!(seen.last(), Some(&(FORWARD_LIMIT as u64 + 2)));
}

#[test]
fn a_range_is_queued_downwards() {
    let window: Vec<VideoFrame> = (10..20).map(frame).collect();
    assert_eq!(find_in(&window, 13), Some(3));
    assert_eq!(find_in(&window, 30), None);
    let mut q = PreviewQueue::new();
    assert_eq!(q.push_range(&window, 12, 15), Some(12));
    let mut seen = Vec::new();
    while let Some(f) = q.pop() {
        seen.push(f.position.0);
    }
    assert_eq!(seen, vec![15, 14, 13, 12]);
    assert!(BACKWARD_LIMIT > FORWARD_LIMIT);
}

/// A clock that runs down one frame per tick, and a decoder that keeps up.
#[test]
fn a_backwards_pass_shows_every_frame_once_going_down() {
    let mut scrub = Scrub::new(24);
    let mut q = PreviewQueue::new();
    let mut seen = Vec::new();
    for clock in (0..=100u64).rev() {
        match scrub.tick(Some(clock), &mut q) {
            Plan::Wait => {}
            Plan::Decode { start, end } => {
                assert!(start <= end);
                let fresh: Vec<VideoFrame> = (start..end + 1).map(frame).collect();
                scrub.decoded(clock, start, end, fresh, 1, Some(clock), &mut q);
            }
        }
        while let Some(f) = q.pop() {
            seen.push(f.position.0);
        }
    }
    assert!(!seen.is_empty(), "nothing was shown");
    for w in seen.windows(2) {
        assert!(w[1] < w[0], "{} after {}", w[1], w[0]);
    }
}

#[test]
fn nothing_is_scrubbed_without_a_clock() {
    let mut scrub = Scrub::new(24);
    let mut q = PreviewQueue::new();
    assert_eq!(scrub.tick(None, &mut q), Plan::Wait);
    assert!(q.pop().is_none());
}

#[test]
fn one_run_is_decoded_ahead_at_a_time() {
    let mut p = PrefetchState::new();
    assert!(p.begin().is_none());
    assert!(p.request(Frame(10), Frame(20)));
    assert!(p.is_coming(Frame(15)));
    assert_eq!(p.begin(), Some((Frame(10), Frame(20))));
    assert!(p.is_coming(Frame(15)), "a run being decoded is still coming");
    p.finish(vec![frame(10), frame(11)]);
    assert!(!p.is_coming(Frame(15)));
    assert_eq!(p.take_ready().len(), 2);
    assert!(p.take_ready().is_empty());
    assert!(!p.is_stopped());
    p.stop();
    assert!(p.is_stopped());
}

#[test]
fn a_run_is_made_of_every_frame_up_to_its_target() {
    let size = Resolution {
        width: 2,
        height: 1,
    };
    let mut run = Run::new(Frame(5), Frame(7), size);
    let mut asked = Vec::new();
    while let Some(at) = run.wants() {
        asked.push(at.0);
        if at.0 == 6 {
            run.take(Pulled::NoPicture);
        } else {
            run.take(Pulled::Picture {
                width: 2,
                height: 1,
                rgba: vec![1; 8],
            });
        }
    }
    assert_eq!(asked, vec![5, 6, 7]);
    let got = run.finish().unwrap();
    assert_eq!(
        got.iter().map(|f| f.position.0).collect::<Vec<_>>(),
        vec![5, 6, 7]
    );
    assert_eq!(got[1].rgba, vec![0, 0, 0, 255, 0, 0, 0, 255]);
    assert_eq!(got[2].rgba, vec![1; 8]);
}

#[test]
fn only_a_missing_target_fails_a_run() {
    let size = Resolution {
        width: 2,
        height: 1,
    };
    let mut run = Run::new(Frame(5), Frame(7), size);
    run.take(Pulled::NoFrame);
    assert!(run.wants().is_none());
    assert_eq!(run.finish().map(|v| v.len()), Some(0));

    let mut run = Run::new(Frame(7), Frame(7), size);
    run.take(Pulled::NoFrame);
    assert!(run.finish().is_none());
}

const CUT: u64 = 120;

/// Stills of a film that is red before its cut and blue after it.
struct Film {
    stills: Stills,
    ahead: PrefetchState,
    worker: bool,
}

impl Film {
    fn new(worker: bool) -> Self {
        Self {
            stills: Stills::new(),
            ahead: PrefetchState::new(),
            worker,
        }
    }

    fn pull(at: u64) -> VideoFrame {
        let pixel: [u8; 4] = if at >= CUT { [0, 0, 255, 255] } else { [255, 0, 0, 255] };
        VideoFrame {
            position: Frame(at),
            width: 1,
            height: 1,
            rgba: pixel.to_vec(),
        }
    }

    fn decode(&mut self, start: Frame, at: u64, back: bool) -> VideoFrame {
        let run: Vec<VideoFrame> = (start.0..at + 1).map(Film::pull).collect();
        let walked = if back { Some(start) } else { None };
        self.stills
            .keep_run(PreviewScale::Half, Frame(at), run, walked)
            .unwrap()
    }

    fn frame_at(&mut self, at: u64) -> VideoFrame {
        let scale = PreviewScale::Half;
        let back = self.stills.request(Frame(at));
        let ready = self.ahead.take_ready();
        let served = match self.stills.begin(scale, Frame(at), back, ready, self.worker) {
            Next::Served(f) => f,
            Next::Decode { start } => self.decode(start, at, back),
            Next::Wait => {
                let ready = self.ahead.take_ready();
                match self.stills.waited(scale, Frame(at), ready) {
                    Next::Served(f) => f,
                    Next::Decode { start } => self.decode(start, at, back),
                    Next::Wait => panic!("a picture is waited for once"),
                }
            }
        };
        if back && self.worker {
            if let Ahead::Decode { start, end } = self.stills.ahead(Frame(at), false) {
                if self.ahead.request(start, end) {
                    if let Some((s, e)) = self.ahead.begin() {
                        self.ahead.finish((s.0..e.0 + 1).map(Film::pull).collect());
                    }
                }
            }
        }
        served
    }
}

fn dominant(f: &VideoFrame) -> usize {
    if f.rgba[2] > f.rgba[0] {
        2
    } else {
        0
    }
}

#[test]
fn stepping_backwards_decodes_each_frame_once_and_is_exact() {
    let mut b = Film::new(false);
    let start = 130u64;
    b.frame_at(start);
    let baseline = b.stills.decodes;
    let steps = 24u64;
    for n in (start - steps..start).rev() {
        let f = b.frame_at(n);
        assert_eq!(f.position, Frame(n), "a backward step returned frame {n:?}");
        let want = if n >= 120 { 2 } else { 0 };
        assert_eq!(
            dominant(&f),
            want,
            "frame {n} came back with the wrong picture"
        );
    }
    let decoded = b.stills.decodes - baseline;
    let run = b.stills.backstep_run as usize;
    assert!(
        decoded <= steps as usize + run,
        "{steps} backward steps decoded {decoded} frames; the cache is not being hit"
    );
    assert!(
        b.stills.cache_hits >= steps as usize - (steps as usize).div_ceil(run),
        "backward steps never hit the cache"
    );
}

#[test]
fn the_prefetcher_stays_one_run_ahead_and_delivers_the_right_pictures() {
    let mut b = Film::new(true);
    let run = b.stills.backstep_run;
    let start = 160u64;
    let steps = 40u64;
    b.frame_at(start);
    for n in (start - steps..start).rev() {
        let f = b.frame_at(n);
        assert_eq!(f.position, Frame(n));
        let want = usize::from(n >= 120) * 2;
        assert_eq!(
            dominant(&f),
            want,
            "frame {n} came back with another frame's picture"
        );
    }
    assert!(
        b.stills.prefetched <= (steps + 2 * run) as usize,
        "the worker decoded {} frames for a {steps}-frame walk: it is racing ahead",
        b.stills.prefetched
    );
}

#[test]
fn a_backward_walk_finds_the_next_run_already_decoded() {
    let mut b = Film::new(true);
    let run = b.stills.backstep_run;
    let start = 200u64;
    b.frame_at(start);
    b.frame_at(start - 1);
    b.frame_at(start - 2);
    assert!(
        b.stills.prefetched >= run as usize,
        "the worker delivered {} of {run} frames: the run below is still decoded inline",
        b.stills.prefetched
    );
    let hits = b.stills.cache_hits;
    let steps = run + 2;
    for n in (start - 2 - steps..start - 2).rev() {
        let f = b.frame_at(n);
        assert_eq!(f.position, Frame(n));
    }
    assert_eq!(
        b.stills.cache_hits - hits,
        steps as usize,
        "a step off the bottom of the run still decoded on the caller's thread"
    );
}

#[test]
fn editing_the_timeline_invalidates_cached_stills() {
    let mut b = Film::new(false);
    b.frame_at(200);
    let hits = b.stills.cache_hits;
    b.frame_at(200);
    assert_eq!(b.stills.cache_hits, hits + 1, "an unchanged still is cached");
    b.stills.invalidate();
    b.frame_at(200);
    assert_eq!(
        b.stills.cache_hits,
        hits + 1,
        "a cached still outlived the edit"
    );
}

#[test]
fn nothing_is_decoded_ahead_while_playing() {
    let mut b = Film::new(false);
    b.frame_at(100);
    b.frame_at(99);
    assert_eq!(b.stills.ahead(Frame(99), true), Ahead::Stop);
}

#[test]
fn an_export_covers_the_range_it_was_asked_for() {
    assert_eq!(export_range(None, 100).unwrap(), (Frame(0), Frame(100)));
    assert_eq!(
        export_range(Some((Frame(10), Frame(20))), 100).unwrap(),
        (Frame(10), Frame(20))
    );
    assert_eq!(export_range(None, -1).unwrap(), (Frame(0), Frame(0)));
    assert_eq!(
        export_range(Some((Frame(20), Frame(10))), 100).unwrap_err(),
        BackendError::Render {
            reason: "the export range 20 to 10 runs backwards".into()
        }
    );
}

#[test]
fn a_trial_encode_is_named_after_what_it_tries() {
    assert_ne!(
        trial_key("h264_vaapi", "/dev/dri/renderD128"),
        trial_key("h264_vaapi", "/dev/dri/renderD129")
    );
    let name = trial_name("h264_vaapi", "/dev/dri/renderD128");
    assert!(!name.contains('/'), "{name}");
}

#[test]
fn only_a_required_encoder_fails_an_export() {
    let hardware = || EncodeChoice::Hardware {
        encoder: "h264_vaapi".into(),
        device: "/dev/dri/renderD128".into(),
    };
    let (codec, device) = resolve_encoder(hardware(), "libx264", true, false).unwrap();
    assert_eq!(codec, "h264_vaapi");
    assert_eq!(device.as_deref(), Some("/dev/dri/renderD128"));
    let (codec, device) = resolve_encoder(hardware(), "libx264", false, false).unwrap();
    assert_eq!(codec, "libx264");
    assert!(device.is_none());
    assert!(resolve_encoder(hardware(), "libx264", false, true).is_err());
    let (codec, _) = resolve_encoder(EncodeChoice::Software, "libx264", false, false).unwrap();
    assert_eq!(codec, "libx264");
    assert!(
        resolve_encoder(EncodeChoice::Refused("no.".into()), "libx264", false, true).is_err()
    );
}

fn render_settings() -> RenderSettings {
    RenderSettings {
        video_codec: "libx264".into(),
        audio_codec: "aac".into(),
        resolution: Resolution {
            width: 1280,
            height: 720,
        },
        fps: Fps { num: 25, den: 1 },
        hardware: HardwareEncode::Off,
        separate_audio_tracks: false,
        burn_subtitles: true,
        extra: vec![("crf".into(), "18".into())],
    }
}

#[test]
fn one_export_runs_at_a_time() {
    assert_eq!(
        begin_render(true, None, 100).unwrap_err(),
        BackendError::Render {
            reason: "a render is already in progress".into()
        }
    );
    assert_eq!(
        begin_render(false, None, 100).unwrap(),
        (Frame(0), Frame(100))
    );
}

#[test]
fn an_export_is_planned_whole() {
    let plan = plan_render(
        Frame(10),
        Frame(40),
        &render_settings(),
        EncodeChoice::Software,
        false,
        None,
    )
    .unwrap();
    assert_eq!((plan.first, plan.last, plan.total), (10, 39, 30));
    assert!(plan.layout.is_none() && plan.graph.is_none());
    assert_eq!(
        plan.settings,
        consumer_settings(&render_settings(), &None, "libx264", None)
    );
    let mut required = render_settings();
    required.hardware = HardwareEncode::Required;
    let refused = plan_render(
        Frame(10),
        Frame(40),
        &required,
        EncodeChoice::Hardware {
            encoder: "h264_vaapi".into(),
            device: "/dev/dri/renderD128".into(),
        },
        false,
        None,
    );
    assert_eq!(
        refused.unwrap_err(),
        BackendError::Render {
            reason: Acceleration::encoder_refusal("h264_vaapi")
        }
    );
    let trial = trial_settings("h264_vaapi", "/dev/dri/renderD128");
    assert_eq!(trial.len(), 6);
    assert_eq!(trial[2].value, SettingValue::Text("h264_vaapi".into()));
}

#[test]
fn pulling_frames_without_a_timeline_is_an_error_not_a_panic() {
    assert!(check_graph(false).is_err());
    assert!(check_graph(true).is_ok());
}

#[test]
fn preview_calls_out_of_order_are_rejected() {
    assert_eq!(check_preview(false), Err(BackendError::PreviewNotRunning));
    assert_eq!(check_start(true), Err(BackendError::PreviewAlreadyRunning));
    assert!(check_start(false).is_ok() && check_preview(true).is_ok());
    assert!(rate_refusal().user_message().contains("finite"));
    assert_eq!(
        BackendError::Seek { frame: 12 }.user_message(),
        "frame 12 could not be read"
    );
}

#[test]
fn probing_missing_media_reports_it_offline() {
    let err = check_source("/definitely/not/here.mkv", false).unwrap_err();
    assert!(matches!(err, BackendError::Offline { .. }));
}

#[test]
fn a_scaled_pull_is_the_same_frame_at_a_smaller_size() {
    let full = Resolution {
        width: 320,
        height: 180,
    };
    assert_eq!(PreviewScale::Full.apply(full), full);
    assert_eq!(
        PreviewScale::Quarter.apply(full),
        Resolution {
            width: 80,
            height: 44
        }
    );
    assert_eq!(
        PreviewScale::Quarter.apply(Resolution {
            width: 640,
            height: 480
        }),
        Resolution {
            width: 160,
            height: 120
        }
    );
}

#[test]
fn a_consumer_is_told_what_to_write() {
    let settings = render_settings();
    let v = consumer_settings(&settings, &None, "libx264", None);
    let get = |k: &str| v.iter().find(|s| s.key == k).map(|s| &s.value);
    assert_eq!(get("vcodec"), Some(&SettingValue::Text("libx264".into())));
    assert_eq!(get("acodec"), Some(&SettingValue::Text("aac".into())));
    assert_eq!(get("width"), Some(&SettingValue::Number(1280)));
    assert_eq!(get("crf"), Some(&SettingValue::Text("18".into())));
}

#[test]
fn progress_says_where_an_export_stands() {
    assert_eq!(RenderProgress::idle().state, RenderState::Idle);
    let p = progress(40, 100, false, false);
    assert_eq!((p.state, p.total), (RenderState::Running, 100));
    assert_eq!(progress(100, 100, false, true).state, RenderState::Done);
    assert_eq!(progress(40, 100, true, false).state, RenderState::Cancelled);
    let given_up = RenderProgress::given_up(100);
    assert_eq!(
        (given_up.state, given_up.rendered, given_up.total),
        (RenderState::Cancelled, 0, 100)
    );
}

fn stream(kind: StreamKind, codec: Option<&str>, width: i32, height: i32) -> StreamFacts {
    StreamFacts {
        kind,
        codec: codec.map(str::to_string),
        width,
        height,
        sample_rate: 48_000,
        fps: Some(Fps { num: 30, den: 1 }),
    }
}

#[test]
fn probe_reports_the_stream_graph_of_a_multitrack_mkv() {
    let streams = vec![
        stream(StreamKind::Video, Some("h264"), 640, 480),
        stream(StreamKind::Audio, Some("aac"), 0, 0),
        stream(StreamKind::Audio, Some("aac"), 0, 0),
        stream(StreamKind::Other, None, 0, 0),
        stream(StreamKind::Audio, Some("aac"), 0, 0),
    ];
    let info = describe("/m.mkv".into(), &streams, 240);
    assert!(info.has_video);
    assert_eq!(info.audio_streams, 3);
    assert_eq!(info.frames, 240);
    assert_eq!(
        info.resolution,
        Some(Resolution {
            width: 640,
            height: 480
        })
    );
    assert_eq!(info.sample_rate, Some(48_000));
    assert_eq!(
        decode_facts(&streams),
        (Some("h264".to_string()), 640 * 480)
    );
    let sound = describe("/m.wav".into(), &vec![stream(StreamKind::Audio, None, 0, 0)], -1);
    assert!(!sound.has_video);
    assert_eq!(sound.frames, 0);
    assert_eq!(sound.resolution, None);
}

#[test]
fn a_clock_that_has_not_started_gives_way_to_the_graph() {
    assert_eq!(clock_position(-1), None);
    assert_eq!(clock_position(7), Some(Frame(7)));
    assert_eq!(preview_position(Some(Frame(4)), Some(9)), Frame(4));
    assert_eq!(preview_position(None, Some(9)), Frame(9));
    assert_eq!(preview_position(None, None), Frame(0));
}

#[test]
fn turning_round_reopens_the_sound() {
    assert_eq!(plan_rate(false, false, None), RateChange::Refuse);
    assert_eq!(plan_rate(true, true, Some(false)), RateChange::Reopen);
    assert_eq!(plan_rate(true, false, Some(true)), RateChange::Reopen);
    assert_eq!(plan_rate(true, false, Some(false)), RateChange::Adjust);
    assert_eq!(plan_rate(true, false, None), RateChange::Adjust);
    assert!(!sound_services().is_empty());
    assert_ne!(preview_settings(true), preview_settings(false));
}

#[test]
fn a_planar_frame_knows_its_planes() {
    let f = PlanarFrame {
        position: Frame(0),
        width: 3,
        height: 3,
        y: vec![0; 9],
        u: vec![0; 4],
        v: vec![0; 4],
    };
    assert!(f.is_well_formed());
    assert_eq!(f.bytes(), 17);
    assert_eq!(f.resolution().width, 3);
}

/// A clock that jumps about, and a decoder that cannot keep up with it.
#[test]
fn a_backwards_pass_goes_down_whatever_the_clock_says() {
    let mut scrub = Scrub::new(6);
    let mut q = PreviewQueue::new();
    let mut seen: Vec<u64> = Vec::new();
    assert_eq!(scrub.tick(Some(0), &mut q), Plan::Wait);
    assert!(q.pop().is_none(), "the clock has not started");
    let clocks = [
        90u64, 88, 95, 70, 71, 60, 60, 75, 40, 39, 20, 45, 10, 9, 3, 0, 50,
    ];
    for (i, clock) in clocks.into_iter().enumerate() {
        if let Plan::Decode { start, end } = scrub.tick(Some(clock), &mut q) {
            let fresh: Vec<VideoFrame> = (start..end + 1).map(frame).collect();
            scrub.decoded(clock, start, end, fresh, 20, Some(clock), &mut q);
        }
        if i % 3 == 0 {
            if let Some(f) = q.pop() {
                seen.push(f.position.0);
            }
        }
    }
    let mut waiting = 0;
    while let Some(f) = q.pop() {
        seen.push(f.position.0);
        waiting += 1;
    }
    assert!(waiting <= BACKWARD_LIMIT);
    assert!(seen.len() > 2, "{seen:?}");
    assert!(seen.windows(2).all(|w| w[1] < w[0]), "{seen:?}");
}
