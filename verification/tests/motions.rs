//! Motions, objects, predicates and the analysis they search.

use davimci::analysis::index::{
    frame_at_ms, ms_at_frame, Analysis, AnalysisIndex, SilenceSpan, TrackAnalysis,
};
use davimci::analysis::tree::MaxTree;
use davimci::class::ErrorClass;
use davimci::model::{
    Clip, ClipId, ClipProps, Fps, Frame, GroupId, Mark, Marker, Playhead, Resolution, Timeline,
    TimelineProps, Track, TrackId, TrackKind,
};
use davimci::motion::error::MotionError;
use davimci::motion::jump::{nearest, steps, JumpPoints};
use davimci::motion::motion::{BuiltinMotion as M, Motion, MotionCtx};
use davimci::motion::object::{Object, TextObject as O};
use davimci::motion::predicate::{Answer, NoAnalysis, Predicate, PredicateIndex};
use davimci::motion::target::{Direction, Position, Resolved, Scope, TimeRange};

const FORWARD: Direction = Direction::Forward;
const BACKWARD: Direction = Direction::Backward;
const FPS_60: Fps = Fps { num: 60, den: 1 };

fn clip(id: u64, start: u64, duration: u64, label: &str) -> Clip {
    Clip {
        id: ClipId(id),
        label: label.to_string(),
        start: Frame(start),
        duration: Frame(duration),
        source_in: Frame(0),
        media: None,
        text: None,
        props: ClipProps {
            gain_db: None,
            fade_in: Frame(0),
            fade_out: Frame(0),
            placement: None,
            opacity: None,
        },
        group: None,
        transition_in: None,
    }
}

fn track(id: u64, name: &str, kind: TrackKind, clips: Vec<Clip>) -> Track {
    Track {
        id: TrackId(id),
        name: name.to_string(),
        kind,
        muted: false,
        solo: false,
        clips,
    }
}

fn timeline(tracks: Vec<Track>) -> Timeline {
    let first = tracks[0].id;
    Timeline {
        props: TimelineProps {
            fps: FPS_60,
            resolution: Resolution {
                width: 1920,
                height: 1080,
            },
            sample_rate: 48_000,
        },
        tracks,
        markers: Vec::new(),
        marks: Vec::new(),
        playhead: Playhead {
            frame: Frame(0),
            track: first,
        },
        id_cursor: 100,
    }
}

/// `V1: [a 0-100][b 100-250]<gap 50>[c 300-350]`, `A1: [x 0-100]`, empty `A2`,
/// markers at 120 and 300.
fn tl() -> Timeline {
    let mut tl = timeline(vec![
        track(
            1,
            "V1",
            TrackKind::Video,
            vec![clip(1, 0, 100, "a"), clip(2, 100, 150, "b"), clip(3, 300, 50, "c")],
        ),
        track(2, "A1", TrackKind::Audio, vec![clip(4, 0, 100, "x")]),
        track(3, "A2", TrackKind::Audio, Vec::new()),
    ]);
    for (frame, label) in [(120, "one"), (300, "two")] {
        tl.markers.push(Marker {
            frame: Frame(frame),
            label: label.into(),
        });
    }
    tl
}

fn track_id(tl: &Timeline, name: &str) -> TrackId {
    tl.tracks.iter().find(|t| t.name == name).unwrap().id
}

fn place(tl: &mut Timeline, track: &str, frame: u64) {
    tl.playhead = Playhead {
        frame: Frame(frame),
        track: track_id(tl, track),
    };
}

/// The clip bounds of the focused track, and the markers.
fn jump_points(tl: &Timeline) -> JumpPoints {
    let mut points: Vec<Frame> = tl.markers.iter().map(|m| m.frame).collect();
    for t in &tl.tracks {
        if t.id == tl.playhead.track {
            for c in &t.clips {
                points.push(c.start);
                points.push(c.end());
            }
        }
    }
    points.sort_unstable();
    points.dedup();
    JumpPoints { points }
}

fn land(track: &str, frame: u64, m: &M, count: u32) -> Result<u64, MotionError> {
    let mut tl = tl();
    place(&mut tl, track, frame);
    let jumps = jump_points(&tl);
    let ctx = MotionCtx::new(&tl, &jumps);
    m.resolve(&ctx, count).map(|r| match r {
        Resolved::Position(p) => p.frame.get(),
        Resolved::Range(r, _) => r.start.get(),
        Resolved::Pending => u64::MAX,
    })
}

#[test]
fn landing_positions() {
    // (track, start frame, motion, count, expected landing)
    let cases: &[(&str, u64, M, u32, u64)] = &[
        // Arrow keys: exactly one frame, at any zoom.
        ("V1", 10, M::Frame(FORWARD), 1, 11),
        ("V1", 10, M::Frame(BACKWARD), 1, 9),
        ("V1", 10, M::Frame(FORWARD), 7, 17),
        // Clamped at both ends rather than failing.
        ("V1", 0, M::Frame(BACKWARD), 5, 0),
        ("V1", 349, M::Frame(FORWARD), 5, 349),
        // Jump points, zoomed out: clip bounds and markers.
        ("V1", 0, M::JumpPoint(FORWARD), 1, 100),
        ("V1", 0, M::JumpPoint(FORWARD), 2, 120),
        ("V1", 0, M::JumpPoint(FORWARD), 3, 250),
        ("V1", 0, M::JumpPoint(FORWARD), 99, 350),
        ("V1", 350, M::JumpPoint(BACKWARD), 1, 300),
        // Clip boundaries.
        ("V1", 0, M::ClipBoundary(FORWARD), 1, 100),
        ("V1", 100, M::ClipBoundary(BACKWARD), 1, 0),
        ("V1", 120, M::ClipBoundary(BACKWARD), 1, 100),
        ("V1", 120, M::ClipBoundary(FORWARD), 2, 300),
        ("V1", 349, M::ClipBoundary(FORWARD), 1, 350),
        // `e`: last frame of the clip, then onward.
        ("V1", 0, M::ClipEnd, 1, 99),
        ("V1", 99, M::ClipEnd, 1, 249),
        ("V1", 0, M::ClipEnd, 3, 349),
        // In the gap, `e` finds the next clip's end.
        ("V1", 260, M::ClipEnd, 1, 349),
        // Timeline ends.
        ("V1", 120, M::TimelineStart, 1, 0),
        ("V1", 120, M::TimelineEnd, 1, 349),
        // Markers.
        ("V1", 0, M::Marker(FORWARD), 1, 120),
        ("V1", 0, M::Marker(FORWARD), 2, 300),
        ("V1", 300, M::Marker(BACKWARD), 1, 120),
        // `%` toggles between the ends of the clip under the playhead.
        ("V1", 100, M::MatchingEdit, 1, 249),
        ("V1", 249, M::MatchingEdit, 1, 100),
        ("V1", 180, M::MatchingEdit, 1, 100),
        // An empty track has no boundaries but still has the timeline ends.
        ("A2", 40, M::TimelineEnd, 1, 349),
    ];

    for (track, start, m, count, want) in cases {
        let got = land(track, *start, m, *count);
        assert_eq!(
            got,
            Ok(*want),
            "{m:?} with count {count} from {track}:{start}"
        );
    }
}

#[test]
fn motions_that_cannot_land_are_rejected() {
    let cases: Vec<(&str, u64, M, MotionError)> = vec![
        ("V1", 350, M::JumpPoint(FORWARD), MotionError::NoJumpPoint),
        ("V1", 0, M::JumpPoint(BACKWARD), MotionError::NoJumpPoint),
        ("A2", 0, M::ClipBoundary(FORWARD), MotionError::NoBoundary),
        ("V1", 350, M::ClipBoundary(FORWARD), MotionError::NoBoundary),
        ("V1", 349, M::ClipEnd, MotionError::NoBoundary),
        ("V1", 300, M::Marker(FORWARD), MotionError::NoMarker),
        (
            "V1",
            260,
            M::MatchingEdit,
            MotionError::NoMatchingEdit { frame: 260 },
        ),
        ("V1", 0, M::Mark('z'), MotionError::NoSuchMark('z')),
    ];
    for (track, start, m, want) in cases {
        assert_eq!(land(track, start, &m, 1), Err(want), "{m:?}");
    }
}

#[test]
fn marks_carry_their_track() {
    let mut tl = tl();
    place(&mut tl, "V1", 0);
    let a1 = track_id(&tl, "A1");
    tl.marks.push(Mark {
        name: 'a',
        frame: Frame(222),
        track: Some(a1),
    });
    let jumps = JumpPoints::default();
    let ctx = MotionCtx::new(&tl, &jumps);
    let got = M::Mark('a').resolve(&ctx, 1);
    assert!(matches!(
        got,
        Ok(Resolved::Position(p)) if p.frame == Frame(222) && p.track == a1
    ));
}

#[test]
fn track_focus_clamps_but_cycling_wraps() {
    let mut tl = tl();
    let names = ["V1", "A1", "A2"];
    let ids: Vec<TrackId> = names.iter().map(|n| track_id(&tl, n)).collect();
    let jumps = JumpPoints::default();

    let focus = |tl: &Timeline, m: &M, count: u32| {
        let ctx = MotionCtx::new(tl, &jumps);
        m.resolve(&ctx, count).map(|r| match r {
            Resolved::Position(p) => p.track,
            _ => TrackId(0),
        })
    };

    place(&mut tl, "V1", 0);
    assert_eq!(focus(&tl, &M::TrackStep(FORWARD), 1), Ok(ids[1]));
    assert_eq!(focus(&tl, &M::TrackStep(FORWARD), 9), Ok(ids[2]));
    assert_eq!(
        focus(&tl, &M::TrackStep(BACKWARD), 1),
        Err(MotionError::NoTrackThere)
    );
    assert_eq!(focus(&tl, &M::TrackCycle(BACKWARD), 1), Ok(ids[2]));
    assert_eq!(focus(&tl, &M::TrackCycle(FORWARD), 3), Ok(ids[0]));

    place(&mut tl, "A2", 0);
    assert_eq!(
        focus(&tl, &M::TrackStep(FORWARD), 1),
        Err(MotionError::NoTrackThere)
    );
    assert_eq!(focus(&tl, &M::TrackCycle(FORWARD), 1), Ok(ids[0]));
}

#[test]
fn a_motion_knows_which_way_it_reads() {
    assert_eq!(M::Frame(BACKWARD).time_direction(), Some(BACKWARD));
    assert_eq!(M::TrackStep(FORWARD).time_direction(), None);
}

fn resolve_object(tl: &Timeline, o: &O) -> Result<(TimeRange, Vec<TrackId>), MotionError> {
    let jumps = JumpPoints::default();
    let ctx = MotionCtx::new(tl, &jumps);
    match o.resolve(&ctx)? {
        Resolved::Range(r, s) => Ok((r, s.tracks().to_vec())),
        _ => Err(MotionError::NoSegment),
    }
}

#[test]
fn object_scope_matrix() {
    // Ungrouped: every object stays on the focused track.
    let mut plain = tl();
    place(&mut plain, "V1", 120);
    let v1 = track_id(&plain, "V1");
    for o in [O::InnerClip, O::AClip, O::InnerTrack, O::ATrack] {
        let got = resolve_object(&plain, &o);
        assert_eq!(
            got,
            Ok((TimeRange::new(Frame(100), Frame(250)), vec![v1])),
            "{o:?} on an unlinked clip"
        );
    }

    // Linked video and audio: only `at` follows the group.
    let mut linked = timeline(vec![
        track(1, "V1", TrackKind::Video, vec![clip(1, 0, 100, "a")]),
        track(2, "A1", TrackKind::Audio, vec![clip(2, 0, 100, "x")]),
    ]);
    let (v, a) = (track_id(&linked, "V1"), track_id(&linked, "A1"));
    for t in &mut linked.tracks {
        t.clips[0].group = Some(GroupId(7));
    }
    place(&mut linked, "V1", 50);

    let full = TimeRange::new(Frame(0), Frame(100));
    for o in [O::InnerClip, O::AClip, O::InnerTrack] {
        assert_eq!(resolve_object(&linked, &o), Ok((full, vec![v])), "{o:?}");
    }
    assert_eq!(resolve_object(&linked, &O::ATrack), Ok((full, vec![v, a])));
}

#[test]
fn a_segment_object_needs_a_visual_selection() {
    let mut tl = tl();
    place(&mut tl, "V1", 120);
    let v1 = track_id(&tl, "V1");
    assert_eq!(
        resolve_object(&tl, &O::InnerSegment(None)),
        Err(MotionError::NoSegment)
    );
    let seg = TimeRange::new(Frame(110), Frame(130));
    assert_eq!(
        resolve_object(&tl, &O::InnerSegment(Some(seg))),
        Ok((seg, vec![v1]))
    );
}

#[test]
fn objects_need_a_clip_under_the_playhead() {
    let mut tl = tl();
    place(&mut tl, "V1", 260);
    assert_eq!(
        resolve_object(&tl, &O::InnerClip),
        Err(MotionError::NoClipUnderPlayhead { track: "V1".into() })
    );
}

/// An index with hits on a track at 40 and 90: the peaks of two short sounds.
fn analysed(track: TrackId, frames: &[u64]) -> AnalysisIndex {
    let mut idx = AnalysisIndex::new(Fps { num: 100, den: 1 });
    let mut peaks = vec![-90_000; 200];
    for f in frames {
        peaks[*f as usize] = -1_000;
    }
    idx.insert(
        track,
        &Analysis {
            hop_ms: 10,
            peaks,
            silence: frames
                .iter()
                .map(|f| SilenceSpan {
                    start_ms: f * 10,
                    end_ms: f * 10 + 600,
                })
                .collect(),
            scene_changes: Vec::new(),
        },
    );
    idx
}

#[test]
fn predicate_motions_report_pending_until_analysis_lands() {
    let mut tl = tl();
    place(&mut tl, "A1", 0);
    let a1 = track_id(&tl, "A1");
    let p = Predicate::AudioPeak {
        track: a1,
        threshold_db: -2_000,
    };
    let jumps = JumpPoints::default();

    // No index at all: Pending, never a guess.
    let ctx = MotionCtx::new(&tl, &jumps);
    assert!(M::Predicate(p.clone(), FORWARD)
        .resolve(&ctx, 1)
        .is_ok_and(|r| r.is_pending()));

    // Analysis in flight: still Pending.
    let mut running = analysed(a1, &[40]);
    running.set_pending(a1);
    let ctx = MotionCtx::new(&tl, &jumps).with_analysis(&running);
    assert!(M::Predicate(p.clone(), FORWARD)
        .resolve(&ctx, 1)
        .is_ok_and(|r| r.is_pending()));

    // Complete: exact hits, counts chain, and no match is an error.
    let done = analysed(a1, &[40, 90]);
    let ctx = MotionCtx::new(&tl, &jumps).with_analysis(&done);
    assert_eq!(
        M::Predicate(p.clone(), FORWARD)
            .resolve(&ctx, 1)
            .ok()
            .and_then(|r| r.frame()),
        Some(Frame(40))
    );
    assert_eq!(
        M::Predicate(p.clone(), FORWARD)
            .resolve(&ctx, 2)
            .ok()
            .and_then(|r| r.frame()),
        Some(Frame(90))
    );
    place(&mut tl, "A1", 90);
    let ctx = MotionCtx::new(&tl, &jumps).with_analysis(&done);
    assert_eq!(
        M::Predicate(p, FORWARD).resolve(&ctx, 1),
        Err(MotionError::NoPredicateMatch)
    );
}

#[test]
fn a_predicate_motion_moves_focus_to_the_track_it_searched() {
    let mut tl = tl();
    place(&mut tl, "V1", 0);
    let a1 = track_id(&tl, "A1");
    let idx = analysed(a1, &[70]);
    let jumps = JumpPoints::default();
    let ctx = MotionCtx::new(&tl, &jumps).with_analysis(&idx);
    let got = M::Predicate(
        Predicate::Silence {
            track: a1,
            min_duration_ms: 500,
            threshold_db: -40_000,
        },
        FORWARD,
    )
    .resolve(&ctx, 1);
    assert!(matches!(
        got,
        Ok(Resolved::Position(p)) if p.frame == Frame(70) && p.track == a1
    ));
}

#[test]
fn a_motion_can_start_elsewhere() {
    let tl = tl();
    let jumps = JumpPoints::default();
    let ctx = MotionCtx::new(&tl, &jumps).from(Position {
        frame: Frame(5),
        track: TrackId(1),
    });
    assert_eq!(
        M::Frame(FORWARD).resolve(&ctx, 1).ok().and_then(|r| r.frame()),
        Some(Frame(6))
    );
}

#[test]
fn every_variant_carries_a_formatted_sentence() {
    let all = [
        MotionError::NoJumpPoint,
        MotionError::NoBoundary,
        MotionError::NoClipUnderPlayhead { track: "V1".into() },
        MotionError::NoMarker,
        MotionError::NoSuchMark('a'),
        MotionError::NoSuchTrack("A9".into()),
        MotionError::NoTrackThere,
        MotionError::NoMatchingEdit { frame: 12 },
        MotionError::NoSegment,
        MotionError::NoPredicateMatch,
        MotionError::UnresolvedObject('q'),
    ];
    for e in &all {
        assert_eq!(e.class(), ErrorClass::User);
        let msg = e.user_message();
        assert!(!msg.is_empty() && !msg.contains('{'), "bad message: {msg}");
    }
}

fn peak_of(track: TrackId, threshold_db: i64) -> Predicate {
    Predicate::AudioPeak {
        track,
        threshold_db,
    }
}

#[test]
fn without_analysis_every_query_is_pending() {
    assert_eq!(
        NoAnalysis.find(&peak_of(TrackId(1), -2_000), Frame(0), FORWARD),
        Answer::Pending
    );
}

#[test]
fn an_index_finds_strictly_beyond_the_origin() {
    let idx = analysed(TrackId(1), &[10, 50]);
    let peak = peak_of(TrackId(1), -2_000);
    assert_eq!(idx.find(&peak, Frame(10), FORWARD), Answer::Found(Frame(50)));
    assert_eq!(idx.find(&peak, Frame(50), BACKWARD), Answer::Found(Frame(10)));
    assert_eq!(idx.find(&peak, Frame(50), FORWARD), Answer::NoMatch);
}

#[test]
fn a_predicate_reports_the_track_it_searches() {
    assert_eq!(peak_of(TrackId(1), -2_000).track(), TrackId(1));
    assert_eq!(
        Predicate::Silence {
            track: TrackId(3),
            min_duration_ms: 500,
            threshold_db: -40_000,
        }
        .track(),
        TrackId(3)
    );
    assert_eq!(
        Predicate::SceneChange { track: TrackId(4) }.track(),
        TrackId(4)
    );
    assert_eq!(
        Predicate::Tagged {
            track: TrackId(5),
            tag: "keep".into()
        }
        .track(),
        TrackId(5)
    );
}

#[test]
fn a_reversed_range_is_normalised() {
    let r = TimeRange::new(Frame(90), Frame(10));
    assert_eq!((r.start, r.end), (Frame(10), Frame(90)));
    assert_eq!(r.len(), Frame(80));
    assert!(!r.is_empty());
    assert!(r.contains(Frame(10)));
    assert!(!r.contains(Frame(90)));
}

#[test]
fn a_scope_deduplicates_and_keeps_order() {
    let s = Scope::new(&[TrackId(2), TrackId(1), TrackId(2)]);
    assert_eq!(s.tracks(), [TrackId(2), TrackId(1)]);
    assert_eq!(s.len(), 2);
    assert!(!s.is_empty());
    assert!(s.contains(TrackId(1)));
    assert_eq!(Scope::single(TrackId(4)).tracks(), [TrackId(4)]);
    assert!(FORWARD.is_forward() && !BACKWARD.is_forward());
}

#[test]
fn a_step_lands_on_the_nearest_point() {
    let points = [Frame(30), Frame(10), Frame(20)];
    assert_eq!(nearest(&points, Frame(12), FORWARD), Some(Frame(20)));
    assert_eq!(nearest(&points, Frame(10), BACKWARD), None);
    assert_eq!(steps(&points, Frame(0), FORWARD, 2), Some(Frame(20)));
    assert_eq!(steps(&points, Frame(0), FORWARD, 9), Some(Frame(30)));
}

/// Sound from one to two and from three to four seconds of five.
fn tone_gaps() -> Analysis {
    let peaks = (0..500)
        .map(|hop| {
            if (100..200).contains(&hop) || (300..400).contains(&hop) {
                -6_000
            } else {
                -120_000
            }
        })
        .collect();
    Analysis {
        hop_ms: 10,
        peaks,
        silence: [(0, 1000), (2000, 3000), (4000, 5000)]
            .iter()
            .map(|(start_ms, end_ms)| SilenceSpan {
                start_ms: *start_ms,
                end_ms: *end_ms,
            })
            .collect(),
        scene_changes: Vec::new(),
    }
}

fn index() -> (AnalysisIndex, TrackId) {
    let mut idx = AnalysisIndex::new(FPS_60);
    let track = TrackId(2);
    idx.insert(track, &tone_gaps());
    (idx, track)
}

#[test]
fn a_peak_search_lands_on_the_tone() {
    let (idx, track) = index();
    // Tone starts at 1.000s = frame 60 at 60fps.
    assert_eq!(
        idx.find(&peak_of(track, -12_000), Frame(0), FORWARD),
        Answer::Found(Frame(60))
    );
    // ... and the second burst at 3.000s = frame 180.
    assert_eq!(
        idx.find(&peak_of(track, -12_000), Frame(150), FORWARD),
        Answer::Found(Frame(180))
    );
    // Backwards from the end finds the last loud hop, at 3.990s.
    assert_eq!(
        idx.find(&peak_of(track, -12_000), Frame(299), BACKWARD),
        Answer::Found(Frame(239))
    );
}

#[test]
fn a_threshold_nothing_reaches_is_no_match_not_pending() {
    let (idx, track) = index();
    assert_eq!(
        idx.find(&peak_of(track, 0), Frame(0), FORWARD),
        Answer::NoMatch
    );
}

#[test]
fn silence_search_respects_the_minimum_duration() {
    let (idx, track) = index();
    let long = Predicate::Silence {
        track,
        min_duration_ms: 500,
        threshold_db: -50_000,
    };
    assert_eq!(
        idx.find(&long, Frame(60), FORWARD),
        Answer::Found(Frame(120))
    );
    assert_eq!(
        idx.find(&long, Frame(130), BACKWARD),
        Answer::Found(Frame(120))
    );
    let impossible = Predicate::Silence {
        track,
        min_duration_ms: 10_000,
        threshold_db: -50_000,
    };
    assert_eq!(
        idx.find(&impossible, Frame(0), FORWARD),
        Answer::NoMatch
    );
}

#[test]
fn scene_changes_are_found_in_both_directions() {
    let a = Analysis {
        hop_ms: 10,
        peaks: Vec::new(),
        silence: Vec::new(),
        scene_changes: vec![2000, 4000],
    };
    let mut idx = AnalysisIndex::new(FPS_60);
    idx.insert(TrackId(1), &a);
    let p = Predicate::SceneChange { track: TrackId(1) };
    assert_eq!(idx.find(&p, Frame(0), FORWARD), Answer::Found(Frame(120)));
    assert_eq!(idx.find(&p, Frame(120), FORWARD), Answer::Found(Frame(240)));
    assert_eq!(idx.find(&p, Frame(240), BACKWARD), Answer::Found(Frame(120)));
    assert_eq!(idx.find(&p, Frame(0), BACKWARD), Answer::NoMatch);
}

#[test]
fn an_unfinished_or_failed_track_is_pending_not_no_match() {
    let (mut idx, ready) = index();
    idx.set_pending(TrackId(9));
    assert_eq!(
        idx.find(&peak_of(TrackId(9), -12_000), Frame(0), FORWARD),
        Answer::Pending
    );
    idx.set_failed(TrackId(9), "decode error".into());
    assert_eq!(
        idx.find(&peak_of(TrackId(9), -12_000), Frame(0), FORWARD),
        Answer::Pending
    );
    assert!(matches!(
        idx.state(TrackId(9)),
        Some(TrackAnalysis::Failed(reason)) if reason == "decode error"
    ));
    // A track nobody ever queued is unknown, which is also not "absent".
    assert_eq!(
        idx.find(&peak_of(TrackId(77), -12_000), Frame(0), FORWARD),
        Answer::Pending
    );
    // The ready track keeps answering while its neighbour is analysing.
    assert!(matches!(
        idx.find(&peak_of(ready, -12_000), Frame(0), FORWARD),
        Answer::Found(_)
    ));
}

#[test]
fn invalidating_a_track_makes_it_pending_again() {
    let (mut idx, track) = index();
    assert!(idx.is_ready(track));
    idx.invalidate(track);
    assert!(!idx.is_ready(track));
    assert_eq!(
        idx.find(&peak_of(track, -12_000), Frame(0), FORWARD),
        Answer::Pending
    );
}

#[test]
fn tags_are_not_modelled_yet_and_say_so_by_matching_nothing() {
    let (idx, track) = index();
    assert_eq!(
        idx.find(
            &Predicate::Tagged {
                track,
                tag: "keep".into()
            },
            Frame(0),
            FORWARD
        ),
        Answer::NoMatch
    );
}

#[test]
fn the_max_tree_agrees_with_a_linear_scan() {
    let values: Vec<i64> = (0..97).map(|i| ((i * 37) % 91) - 45).collect();
    let tree = MaxTree::new(&values);
    assert_eq!(tree.len(), 97);
    for threshold in [-50, -10, 0, 20, 44, 45, 100] {
        for from in 0..values.len() {
            let want = values
                .iter()
                .enumerate()
                .skip(from)
                .find(|(_, v)| **v >= threshold)
                .map(|(i, _)| i);
            assert_eq!(tree.first_at_least(from, threshold), want, "from {from}");
            let want_back = values
                .iter()
                .enumerate()
                .take(from + 1)
                .rev()
                .find(|(_, v)| **v >= threshold)
                .map(|(i, _)| i);
            assert_eq!(tree.last_at_least(from, threshold), want_back, "to {from}");
        }
    }
}

#[test]
fn an_empty_tree_answers_without_panicking() {
    let tree = MaxTree::new(&[]);
    assert!(tree.is_empty());
    assert_eq!(tree.first_at_least(0, 0), None);
    assert_eq!(tree.last_at_least(5, 0), None);
}

#[test]
fn frames_and_milliseconds_convert() {
    assert_eq!(ms_at_frame(Frame(60), FPS_60), 1000);
    assert_eq!(frame_at_ms(3990, FPS_60), Frame(239));
    let span = SilenceSpan {
        start_ms: 5,
        end_ms: 12,
    };
    assert_eq!(span.duration_ms(), 7);
}
