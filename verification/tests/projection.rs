//! What a timeline becomes as a graph, and how a graph follows an edit.

use davimci::mlt::error::BackendError;
use davimci::mlt::export::prepare;
use davimci::mlt::graph::{
    blend_services, normalisers, plan_entry, plan_graph, plan_op, plan_producer, qt_is_safe,
    text_services, Call, EntryPlan, SettingValue,
};
use davimci::mlt::patch::{apply_ops, diff, diff_entries, Patch, TrackOp};
use davimci::mlt::projection::{
    channel_op, routing_filters, source_positions, ClipEntry, Entry, FilterSpec, Projection,
    Resource, StreamSelect,
};
use davimci::mlt::transitions::{
    is_known, names, register, registered_names, spec, Registry,
};
use davimci::mlt::transport::{check_transition, plan_update};
use davimci::model::{
    Clip, ClipId, ClipProps, Decimal, Fps, Frame, MediaRef, Placement, Playhead, Resolution,
    Timeline, TimelineProps, Track, TrackId, TrackKind, Transition,
};

fn no_props() -> ClipProps {
    ClipProps {
        gain_db: None,
        fade_in: Frame(0),
        fade_out: Frame(0),
        placement: None,
        opacity: None,
    }
}

fn kind_of(name: &str) -> TrackKind {
    match name.chars().next() {
        Some('A') => TrackKind::Audio,
        Some('O') => TrackKind::Overlay,
        Some('T') => TrackKind::Text,
        _ => TrackKind::Video,
    }
}

fn clip(id: u64, start: u64, duration: u64, label: &str) -> Clip {
    Clip {
        id: ClipId(id),
        label: label.to_string(),
        start: Frame(start),
        duration: Frame(duration),
        source_in: Frame(0),
        media: None,
        text: None,
        props: no_props(),
        group: None,
        transition_in: None,
    }
}

fn track(id: u64, name: &str) -> Track {
    Track {
        id: TrackId(id),
        name: name.to_string(),
        kind: kind_of(name),
        muted: false,
        solo: false,
        clips: Vec::new(),
    }
}

fn empty() -> Timeline {
    Timeline {
        props: TimelineProps {
            fps: Fps { num: 60, den: 1 },
            resolution: Resolution {
                width: 1920,
                height: 1080,
            },
            sample_rate: 48_000,
        },
        tracks: vec![track(1, "V1"), track(2, "A1")],
        markers: Vec::new(),
        marks: Vec::new(),
        playhead: Playhead {
            frame: Frame(0),
            track: TrackId(1),
        },
        id_cursor: 100,
    }
}

/// A timeline with V1 and A1, and whatever else is named.
fn fixture(spec: &[(&str, &[(u64, u64, &str)])]) -> Timeline {
    let mut tl = empty();
    for (name, clips) in spec {
        let at = match tl.tracks.iter().position(|t| t.name == *name) {
            Some(at) => at,
            None => {
                let id = tl.tracks.len() as u64 + 1;
                tl.tracks.push(track(id, name));
                tl.tracks.len() - 1
            }
        };
        for (start, duration, label) in *clips {
            let id = tl.id_cursor;
            tl.id_cursor += 1;
            tl.tracks[at].clips.push(clip(id, *start, *duration, label));
        }
    }
    tl
}

/// Clips on V1 that play `/media/N.mkv`: start, duration, source in, media length.
fn media_fixture(clips: &[(u64, u64, u64, u64)]) -> Timeline {
    let mut tl = empty();
    for (n, (start, duration, source_in, frames)) in clips.iter().enumerate() {
        let mut c = clip(200 + n as u64, *start, *duration, &format!("clip{}", n));
        c.source_in = Frame(*source_in);
        c.media = Some(MediaRef {
            path: format!("/media/{}.mkv", n),
            frames: Frame(*frames),
            offline: false,
            stream: None,
            channels: None,
        });
        tl.tracks[0].clips.push(c);
    }
    tl
}

fn track_at(tl: &Timeline, name: &str) -> usize {
    tl.tracks.iter().position(|t| t.name == name).unwrap()
}

fn split_at(tl: &mut Timeline, at: usize, frame: u64) {
    let i = tl.tracks[at].clip_index_at(Frame(frame)).unwrap();
    let id = tl.id_cursor;
    tl.id_cursor += 1;
    let left = &mut tl.tracks[at].clips[i];
    let head = frame - left.start.0;
    let mut right = left.clone();
    right.id = ClipId(id);
    right.start = Frame(frame);
    right.duration = Frame(left.duration.0 - head);
    right.source_in = Frame(left.source_in.0 + head);
    right.transition_in = None;
    left.duration = Frame(head);
    tl.tracks[at].clips.insert(i + 1, right);
}

fn ripple_delete(tl: &mut Timeline, at: usize, i: usize) {
    let gone = tl.tracks[at].clips.remove(i);
    for c in &mut tl.tracks[at].clips[i..] {
        c.start = Frame(c.start.0 - gone.duration.0);
    }
    if i < tl.tracks[at].clips.len() {
        tl.tracks[at].clips[i].transition_in = None;
    }
}

fn transition(kind: &str, duration: u64) -> Option<Transition> {
    Some(Transition {
        kind: kind.to_string(),
        duration: Frame(duration),
    })
}

fn proj(tl: &Timeline) -> Projection {
    Projection::of(tl, &Registry::new())
}

fn total(entries: &[Entry]) -> u64 {
    entries.iter().map(Entry::length).sum()
}

#[test]
fn an_unchanged_timeline_produces_no_ops() {
    let tl = fixture(&[("V1", &[(0, 100, "a")])]);
    assert_eq!(diff(&proj(&tl), &proj(&tl)), Patch::Nothing);
}

#[test]
fn a_split_updates_one_entry_and_inserts_one() {
    let mut tl = fixture(&[("V1", &[(0, 100, "a")])]);
    let before = proj(&tl);
    split_at(&mut tl, 0, 40);
    let after = proj(&tl);
    let Patch::Tracks(patches) = diff(&before, &after) else {
        panic!("expected playlist ops, not a rebuild");
    };
    assert_eq!(patches.len(), 1);
    assert!(matches!(
        patches[0].ops[0],
        TrackOp::Update { index: 0, .. }
    ));
    assert!(matches!(
        patches[0].ops[1],
        TrackOp::Insert { index: 1, .. }
    ));
}

#[test]
fn a_ripple_delete_removes_rather_than_rebuilds() {
    let mut tl = fixture(&[("V1", &[(0, 50, "a"), (50, 50, "b"), (100, 50, "c")])]);
    let before = proj(&tl);
    ripple_delete(&mut tl, 0, 1);
    let Patch::Tracks(patches) = diff(&before, &proj(&tl)) else {
        panic!("expected playlist ops");
    };
    // `b` leaves; `c` keeps its identity and only its position changes, which
    // a playlist expresses by the removal alone.
    assert_eq!(patches[0].ops, vec![TrackOp::Remove { index: 1 }]);
}

#[test]
fn a_transition_patches_in_and_out_without_a_rebuild() {
    let mut tl = media_fixture(&[
        (0, 100, 20, 400),
        (100, 100, 20, 400),
        (200, 100, 20, 400),
    ]);
    let before = proj(&tl);
    tl.tracks[0].clips[1].transition_in = transition("dissolve", 12);
    let after = proj(&tl);
    let Patch::Tracks(patches) = diff(&before, &after) else {
        panic!("expected playlist ops, not a rebuild");
    };
    let mut entries = before.tracks[0].entries.to_vec();
    apply_ops(&mut entries, &patches[0].ops);
    assert_eq!(entries, after.tracks[0].entries);
    assert!(after.tracks[0].entries.iter().any(Entry::is_transition));

    // Rippling away the outgoing clip takes the overlap with it.
    let before = after;
    ripple_delete(&mut tl, 0, 0);
    let after = proj(&tl);
    assert!(
        !after.tracks[0].entries.iter().any(Entry::is_transition),
        "the cut is gone, so the overlap is too"
    );
    if let Patch::Tracks(patches) = diff(&before, &after) {
        let mut entries = before.tracks[0].entries.to_vec();
        apply_ops(&mut entries, &patches[0].ops);
        assert_eq!(entries, after.tracks[0].entries);
    }
}

#[test]
fn adding_a_track_forces_a_rebuild() {
    let tl = fixture(&[("V1", &[(0, 10, "a")])]);
    let before = proj(&tl);
    let mut tl2 = tl.clone();
    tl2.tracks.push(track(9, "A2"));
    assert_eq!(diff(&before, &proj(&tl2)), Patch::Rebuild);
}

#[test]
fn changing_the_profile_forces_a_rebuild() {
    let tl = fixture(&[("V1", &[(0, 10, "a")])]);
    let before = proj(&tl);
    let mut tl2 = tl.clone();
    tl2.props = TimelineProps {
        fps: Fps { num: 25, den: 1 },
        ..tl.props
    };
    assert_eq!(diff(&before, &proj(&tl2)), Patch::Rebuild);
}

#[test]
fn muting_a_track_forces_a_rebuild_because_hide_is_not_a_playlist_op() {
    let tl = fixture(&[("A1", &[(0, 10, "a")])]);
    let before = proj(&tl);
    let mut tl2 = tl.clone();
    let a1 = track_at(&tl2, "A1");
    tl2.tracks[a1].muted = true;
    assert_eq!(diff(&before, &proj(&tl2)), Patch::Rebuild);
}

#[test]
fn patching_reproduces_the_rebuilt_playlist() {
    let script: [u8; 12] = [0, 1, 2, 3, 4, 5, 2, 0, 3, 1, 4, 0];
    for skip in 0..script.len() {
        let mut tl = fixture(&[("V1", &[(0, 40, "a"), (40, 40, "b"), (120, 40, "c")])]);
        let mut before = proj(&tl);
        for e in &script[skip..] {
            match e {
                0 => {
                    if tl.tracks[0].clip_index_at(Frame(20)).is_some()
                        && tl.tracks[0].clips.iter().all(|c| c.start != Frame(20))
                    {
                        split_at(&mut tl, 0, 20);
                    }
                }
                1 => {
                    if !tl.tracks[0].clips.is_empty() {
                        ripple_delete(&mut tl, 0, 0);
                    }
                }
                2 => {
                    if tl.tracks[0].clips.len() > 1 {
                        ripple_delete(&mut tl, 0, 1);
                    }
                }
                3 => {
                    tl.tracks[0].clips.pop();
                }
                4 => {
                    let end = tl.tracks[0].clips.last().map_or(0, |c| c.end().0);
                    let id = tl.id_cursor;
                    tl.id_cursor += 1;
                    tl.tracks[0].clips.push(clip(id, end + 7, 13, "new"));
                }
                _ => {
                    if let Some(c) = tl.tracks[0].clips.last_mut() {
                        c.duration = Frame(c.duration.0 + 3);
                    }
                }
            }
            let after = proj(&tl);
            let mut entries = before.tracks[0].entries.to_vec();
            match diff(&before, &after) {
                Patch::Nothing => {}
                Patch::Rebuild => panic!("one track's clips never change the shape"),
                Patch::Tracks(patches) => {
                    for p in &patches {
                        assert_eq!(p.track_index, 0);
                        apply_ops(&mut entries, &p.ops);
                    }
                }
            }
            assert_eq!(entries, after.tracks[0].entries);
            before = after;
        }
    }
}

#[test]
fn ops_past_the_end_are_harmless() {
    let mut entries = vec![Entry::Blank { length: Frame(3) }];
    apply_ops(
        &mut entries,
        &[
            TrackOp::Remove { index: 5 },
            TrackOp::Update {
                index: 7,
                entry: Entry::Blank { length: Frame(1) },
            },
            TrackOp::Insert {
                index: 9,
                entry: Entry::Blank { length: Frame(8) },
            },
        ],
    );
    assert_eq!(
        entries,
        vec![
            Entry::Blank { length: Frame(3) },
            Entry::Blank { length: Frame(8) }
        ]
    );
}

#[test]
fn gaps_become_blanks_and_clips_keep_frame_counts() {
    let tl = fixture(&[("V1", &[(0, 100, "a"), (150, 50, "b")])]);
    let p = proj(&tl);
    let v1 = &p.tracks[0];
    assert_eq!(v1.entries.len(), 3);
    assert_eq!(v1.entries[0].length(), 100);
    assert!(matches!(v1.entries[1], Entry::Blank { length } if length == Frame(50)));
    assert_eq!(v1.entries[2].length(), 50);
}

#[test]
fn every_visual_track_above_the_first_is_blended_and_no_audio_track_is() {
    let tl = fixture(&[
        ("V1", &[(0, 100, "a")]),
        ("A1", &[(0, 100, "music")]),
        ("O1", &[(0, 50, "logo")]),
        ("T1", &[(0, 30, "cue")]),
    ]);
    let p = proj(&tl);
    let names: Vec<&str> = p
        .video_blend_tracks()
        .into_iter()
        .map(|i| p.tracks[i].name.as_str())
        .collect();
    assert_eq!(names, ["O1", "T1"]);
}

#[test]
fn out_point_is_inclusive() {
    let tl = fixture(&[("V1", &[(0, 1, "a")])]);
    let p = proj(&tl);
    let Entry::Clip(c) = &p.tracks[0].entries[0] else {
        panic!("expected a clip");
    };
    assert_eq!(c.in_point, Frame(0));
    assert_eq!(c.out_point, Frame(0), "a one-frame clip is in=out=0");
    assert_eq!(c.length(), 1);
}

#[test]
fn a_transition_borrows_handles_and_keeps_the_track_length() {
    let mut tl = media_fixture(&[(0, 100, 20, 400), (100, 100, 20, 400)]);
    let right = tl.tracks[0].clips[1].id;
    let before: u64 = total(&proj(&tl).tracks[0].entries);

    tl.tracks[0].clips[1].transition_in = transition("dissolve", 12);
    let p = proj(&tl);
    let entries = &p.tracks[0].entries;
    assert_eq!(entries.len(), 3, "clip, overlap, clip");
    assert_eq!(
        total(entries),
        before,
        "a transition never changes the timeline length"
    );
    assert_eq!(entries[0].length(), 94, "the outgoing clip gives up six");
    assert_eq!(entries[1].length(), 12);
    assert_eq!(entries[2].length(), 94, "the incoming clip gives up six");

    let Entry::Transition(t) = &entries[1] else {
        panic!("expected the overlap");
    };
    assert_eq!(
        t.clip, right,
        "the overlap is identified by the clip it enters"
    );
    assert_eq!(t.service, "luma");
    assert_eq!(
        (t.from.in_point, t.from.out_point),
        (Frame(114), Frame(125))
    );
    assert_eq!((t.to.in_point, t.to.out_point), (Frame(14), Frame(25)));
    assert_eq!(p.transition_clips(), vec![right]);
}

#[test]
fn an_audio_track_cross_fades_rather_than_wiping() {
    let mut tl = media_fixture(&[(0, 100, 20, 400), (100, 100, 20, 400)]);
    tl.tracks[0].clips[1].transition_in = transition("wipe_left", 12);
    let video = proj(&tl);
    let Entry::Transition(t) = &video.tracks[0].entries[1] else {
        panic!("expected the overlap");
    };
    assert_eq!(t.service, "luma");
    assert_eq!(
        spec(&Registry::new(), "wipe_left", TrackKind::Audio).service,
        "mix"
    );
}

#[test]
fn offline_media_projects_to_a_visible_placeholder() {
    let mut tl = media_fixture(&[(0, 10, 0, 100)]);
    tl.tracks[0].clips[0].media.as_mut().unwrap().offline = true;
    let p = proj(&tl);
    let Entry::Clip(c) = &p.tracks[0].entries[0] else {
        panic!("expected a clip");
    };
    assert_eq!(
        c.resource,
        Resource::Offline {
            path: "/media/0.mkv".into()
        }
    );
    assert_eq!(c.resource.service(), "color");
}

#[test]
fn audio_tracks_never_contribute_video() {
    let tl = fixture(&[("V1", &[(0, 10, "a")]), ("A1", &[(0, 10, "b")])]);
    let p = proj(&tl);
    assert_eq!(p.tracks[0].hide_flags(), 0, "V1 shows video");
    assert_eq!(p.tracks[1].hide_flags(), 1, "A1 contributes no video");
}

#[test]
fn solo_mutes_every_other_track() {
    let mut tl = fixture(&[("A1", &[(0, 10, "a")]), ("A2", &[(0, 10, "b")])]);
    let a1 = track_at(&tl, "A1");
    tl.tracks[a1].solo = true;
    let p = proj(&tl);
    let by = |name: &str| {
        p.tracks
            .iter()
            .find(|t| t.name == name)
            .expect("track present")
    };
    assert!(!by("A1").muted);
    assert!(by("A2").muted, "a solo elsewhere mutes this track");
    assert_eq!(by("A2").hide_flags(), 3);
}

#[test]
fn gain_becomes_a_volume_filter_and_zero_gain_becomes_nothing() {
    let mut tl = fixture(&[("A1", &[(0, 10, "a")])]);
    let a1_index = 1;
    assert!(proj(&tl).tracks[a1_index].entries[0].filters().is_empty());
    tl.tracks[a1_index].clips[0].props.gain_db = Some(Decimal {
        negative: true,
        units: 60_000,
    });
    let p = proj(&tl);
    let f = p.tracks[a1_index].entries[0].filters();
    assert_eq!(f.len(), 1);
    assert_eq!(f[0].service, "volume");
    assert_eq!(f[0].props[0].1, "-6.0000");
}

fn ops(f: &[FilterSpec]) -> Vec<(String, String, String)> {
    f.iter()
        .filter(|f| f.service == "channelcopy")
        .map(|f| {
            let get = |k: &str| {
                f.props
                    .iter()
                    .find(|(n, _)| n == k)
                    .map(|(_, v)| v.clone())
                    .unwrap_or_default()
            };
            (get("from"), get("to"), get("swap"))
        })
        .collect()
}

#[test]
fn a_mono_track_is_swapped_off_centre_then_spread_across_its_pair() {
    assert_eq!(
        ops(&routing_filters(1, 6, 0)),
        vec![
            ("2".into(), "0".into(), "1".into()),
            ("0".into(), "1".into(), "0".into())
        ]
    );
    assert_eq!(
        ops(&routing_filters(1, 6, 2)),
        vec![("2".into(), "3".into(), "0".into())],
        "a mono source already sits on the centre channel"
    );
    assert_eq!(
        ops(&routing_filters(1, 6, 4)),
        vec![
            ("2".into(), "4".into(), "1".into()),
            ("4".into(), "5".into(), "0".into())
        ]
    );
}

#[test]
fn a_stereo_track_moves_as_two_swaps_and_leaves_silence_behind() {
    assert!(ops(&routing_filters(2, 4, 0)).is_empty());
    assert_eq!(
        ops(&routing_filters(2, 4, 2)),
        vec![
            ("0".into(), "2".into(), "1".into()),
            ("1".into(), "3".into(), "1".into())
        ]
    );
}

#[test]
fn routing_never_leaves_two_tracks_sharing_a_channel() {
    let total = 8u16;
    for start in [0u16, 2, 4, 6] {
        for src in [1u16, 2] {
            let mut at = source_positions(src, total);
            for f in routing_filters(src, total, start) {
                let get = |k: &str| -> u16 {
                    f.props
                        .iter()
                        .find(|(n, _)| n == k)
                        .and_then(|(_, v)| v.parse().ok())
                        .unwrap_or_default()
                };
                let (from, to, swap) = (get("from"), get("to"), get("swap") == 1);
                if swap {
                    for slot in &mut at {
                        if *slot == to {
                            *slot = from;
                        } else if *slot == from {
                            *slot = to;
                        }
                    }
                } else {
                    at.push(to);
                }
            }
            at.sort_unstable();
            assert_eq!(
                at,
                vec![start, start + 1],
                "src={src} start={start} left samples outside its own pair"
            );
        }
    }
}

#[test]
fn a_channel_operation_names_its_ends() {
    let f = channel_op(3, 5, true);
    assert_eq!(f.service, "channelcopy");
    assert_eq!(ops(&[f]), vec![("3".into(), "5".into(), "1".into())]);
}

#[test]
fn a_single_audio_track_needs_no_bus() {
    let tl = fixture(&[("V1", &[(0, 10, "a")]), ("A1", &[(0, 10, "b")])]);
    assert_eq!(proj(&tl).audio_layout(), None);
}

#[test]
fn every_audio_track_gets_its_own_channel_pair() {
    let tl = fixture(&[
        ("V1", &[(0, 10, "a")]),
        ("A1", &[(0, 10, "b")]),
        ("A2", &[(0, 10, "c")]),
        ("A3", &[(0, 10, "d")]),
    ]);
    let layout = proj(&tl).audio_layout().expect("three audio tracks");
    assert_eq!(layout.total_channels, 6);
    assert_eq!(
        layout.routes.iter().map(|r| r.start).collect::<Vec<_>>(),
        vec![0, 2, 4]
    );
}

#[test]
fn fades_project_as_envelopes_over_the_clip() {
    let mut tl = fixture(&[("A1", &[(0, 100, "a")])]);
    tl.tracks[1].clips[0].props.fade_in = Frame(10);
    tl.tracks[1].clips[0].props.fade_out = Frame(20);
    let p = proj(&tl);
    let f = p.tracks[1].entries[0].filters();
    assert_eq!(f.len(), 2);
    assert_eq!(f[0].props[0].1, "0=-60;9=0");
    assert_eq!(f[1].props[0].1, "80=0;99=-60");
}

fn cue(text: &str) -> ClipEntry {
    ClipEntry {
        clip: ClipId(1),
        label: "cue".into(),
        resource: Resource::Text(text.into()),
        in_point: Frame(0),
        out_point: Frame(49),
        stream: None,
        channels: None,
        filters: Vec::new(),
    }
}

#[test]
fn a_text_edit_is_not_a_resize_but_a_trim_is() {
    let before = cue("hello");
    assert!(!before.same_producer(&cue("hello there")));
    let mut trimmed = before.clone();
    trimmed.out_point = Frame(29);
    assert!(before.same_producer(&trimmed));
}

#[test]
fn a_placed_picture_carries_its_rectangle() {
    let mut tl = fixture(&[("O1", &[(0, 10, "logo")])]);
    let at = track_at(&tl, "O1");
    tl.tracks[at].clips[0].props.placement = Some(Placement {
        x: Decimal {
            negative: false,
            units: 125_000,
        },
        y: Decimal {
            negative: true,
            units: 5_000,
        },
        percent: Decimal {
            negative: false,
            units: 500_000,
        },
    });
    let p = proj(&tl);
    let f = p.tracks[at].entries[0].filters();
    assert_eq!(f.len(), 1);
    assert!(
        f[0].props.iter().any(|(_, v)| v.contains("12.5000") && v.contains("-0.5000")),
        "{:?}",
        f[0].props
    );
}

#[test]
fn audio_always_cross_fades_whatever_the_type_is_called() {
    let r = Registry::new();
    assert_eq!(spec(&r, "wipe_left", TrackKind::Audio).service, "mix");
    assert_eq!(spec(&r, "dissolve", TrackKind::Audio).service, "mix");
}

#[test]
fn a_dissolve_is_a_bare_luma_and_a_wipe_carries_a_geometry() {
    let r = Registry::new();
    assert_eq!(spec(&r, "dissolve", TrackKind::Video).service, "luma");
    assert!(spec(&r, "dissolve", TrackKind::Video).props.is_empty());
    assert!(spec(&r, "wipe_left", TrackKind::Video)
        .props
        .iter()
        .any(|(k, _)| k == "resource"));
}

#[test]
fn a_registered_type_names_its_own_service() {
    let mut r = Registry::new();
    register(
        &mut r,
        "sparkle_test",
        "frei0r.sparkle",
        vec![("density".into(), "3".into())],
    );
    let video = spec(&r, "sparkle_test", TrackKind::Video);
    assert_eq!(video.service, "frei0r.sparkle");
    assert_eq!(video.props, vec![("density".to_string(), "3".to_string())]);
    assert!(is_known(&r, "sparkle_test"));
    assert!(registered_names(&r).contains(&"sparkle_test".to_string()));
    // Audio still cross-fades, whatever a config called the type.
    assert_eq!(spec(&r, "sparkle_test", TrackKind::Audio).service, "mix");
}

#[test]
fn an_unknown_type_degrades_to_a_dissolve() {
    let r = Registry::new();
    assert_eq!(spec(&r, "sparkle", TrackKind::Video).service, "luma");
    assert!(!is_known(&r, "sparkle"));
    assert!(names(&r).contains(&"dissolve".to_string()));
}

#[test]
fn every_type_that_may_be_named_is_listed_once() {
    let mut r = Registry::new();
    let builtin = [
        "dissolve",
        "wipe_left",
        "wipe_right",
        "wipe_up",
        "wipe_down",
        "iris",
    ];
    assert_eq!(names(&r), builtin.map(String::from).to_vec());
    register(&mut r, "sparkle_test", "frei0r.sparkle", Vec::new());
    register(&mut r, "iris", "frei0r.iris", Vec::new());
    let listed = names(&r);
    assert_eq!(listed.len(), 7);
    assert_eq!(listed[6], "sparkle_test");
    assert!(listed.iter().all(|n| is_known(&r, n)));
}

#[test]
fn registered_names_are_sorted_and_replaced_in_place() {
    let mut r = Registry::new();
    register(&mut r, "zoom", "frei0r.zoom", Vec::new());
    register(&mut r, "blur", "frei0r.blur", Vec::new());
    register(&mut r, "zoom", "frei0r.zoom2", Vec::new());
    assert_eq!(registered_names(&r), vec!["blur".to_string(), "zoom".to_string()]);
    assert_eq!(spec(&r, "zoom", TrackKind::Video).service, "frei0r.zoom2");
}

/// What a graph did to follow a timeline: rebuilt, or patched.
struct Follower {
    held: Option<Projection>,
    rebuilds: usize,
    patches: usize,
}

impl Follower {
    fn new() -> Self {
        Self {
            held: None,
            rebuilds: 0,
            patches: 0,
        }
    }

    fn set_timeline(&mut self, tl: &Timeline) {
        let next = proj(tl);
        match plan_update(self.held.as_ref(), &next) {
            Patch::Nothing => {}
            Patch::Rebuild => self.rebuilds += 1,
            Patch::Tracks(_) => self.patches += 1,
        }
        self.held = Some(next);
    }
}

#[test]
fn a_split_patches_the_playlist_instead_of_rebuilding_the_graph() {
    let mut b = Follower::new();
    let mut tl = fixture(&[("V1", &[(0, 100, "a")])]);
    b.set_timeline(&tl);
    assert_eq!((b.rebuilds, b.patches), (1, 0));
    split_at(&mut tl, 0, 40);
    b.set_timeline(&tl);
    assert_eq!((b.rebuilds, b.patches), (1, 1));
}

#[test]
fn a_ripple_delete_patches_and_shortens_the_timeline() {
    let mut b = Follower::new();
    let mut tl = fixture(&[("V1", &[(0, 50, "a"), (50, 50, "b"), (100, 50, "c")])]);
    b.set_timeline(&tl);
    ripple_delete(&mut tl, 0, 1);
    b.set_timeline(&tl);
    assert_eq!(b.rebuilds, 1);
    assert_eq!(b.patches, 1);
    let entries = &b.held.as_ref().unwrap().tracks[0].entries;
    assert_eq!(
        entries.len(),
        2,
        "the deleted entry must be gone from the projection"
    );
    assert_eq!(total(entries), 100);
}

#[test]
fn adding_a_track_rebuilds_because_the_tractor_shape_changed() {
    let mut b = Follower::new();
    let mut tl = fixture(&[("V1", &[(0, 10, "a")])]);
    b.set_timeline(&tl);
    tl.tracks.push(track(9, "A2"));
    b.set_timeline(&tl);
    assert_eq!(b.rebuilds, 2);
    assert_eq!(b.patches, 0);
}

#[test]
fn projecting_the_same_timeline_twice_touches_nothing() {
    let mut b = Follower::new();
    let tl = fixture(&[("V1", &[(0, 10, "a")])]);
    b.set_timeline(&tl);
    b.set_timeline(&tl);
    assert_eq!((b.rebuilds, b.patches), (1, 0));
}

#[test]
fn a_worker_thread_is_offered_pango_before_qtext() {
    assert!(
        !qt_is_safe(Some("a_worker_thread")),
        "a worker thread claimed Qt"
    );
    assert!(!qt_is_safe(None));
    assert!(qt_is_safe(Some("main")));
    assert_eq!(
        text_services(qt_is_safe(Some("a_worker_thread"))).first().map(String::as_str),
        Some("pango"),
        "a worker thread was offered the Qt text producer first"
    );
    assert_eq!(
        text_services(true).first().map(String::as_str),
        Some("qtext")
    );
}

#[test]
fn a_plan_of_a_graph_blends_what_is_seen_and_mixes_what_is_heard() {
    let tl = fixture(&[
        ("V1", &[(0, 100, "a"), (120, 10, "b")]),
        ("A1", &[(0, 100, "music")]),
        ("O1", &[(0, 50, "logo")]),
    ]);
    let g = plan_graph(&proj(&tl), false);
    assert_eq!(g.tracks.len(), 3);
    assert_eq!(g.blends, vec![2]);
    assert!(!blend_services().is_empty());
    assert!(!normalisers().is_empty());
    assert_eq!(g.tracks[0].name, "V1");
    assert_eq!(g.tracks[1].hidden, 1);
    let shape: Vec<(i32, i32)> = g.tracks[0]
        .entries
        .iter()
        .map(|e| match e {
            EntryPlan::Blank(n) => (-1, *n),
            EntryPlan::Clip { first, last, .. } => (*first, *last),
            EntryPlan::Overlap { last, .. } => (-2, *last),
        })
        .collect();
    assert_eq!(shape, vec![(0, 99), (-1, 20), (0, 9)]);
}

#[test]
fn a_trim_resizes_and_a_new_text_replaces() {
    let mut live = vec![Entry::Clip(Box::new(cue("hello")))];
    let mut trimmed = cue("hello");
    trimmed.out_point = Frame(29);
    let calls = plan_op(
        &TrackOp::Update {
            index: 0,
            entry: Entry::Clip(Box::new(trimmed)),
        },
        &mut live,
        false,
    );
    assert_eq!(
        calls,
        vec![Call::Resize {
            index: 0,
            first: 0,
            last: 29
        }]
    );
    assert_eq!(live[0].length(), 30);

    let calls = plan_op(
        &TrackOp::Update {
            index: 0,
            entry: Entry::Clip(Box::new(cue("hello there"))),
        },
        &mut live,
        false,
    );
    assert_eq!(calls.len(), 2);
    assert_eq!(calls[0], Call::Remove(0));
    assert!(matches!(calls[1], Call::Insert(0, _)));
    assert_eq!(live[0].length(), 50);
}

#[test]
fn a_clip_plays_the_stream_it_names() {
    let mut entry = cue("x");
    entry.resource = Resource::File("/media/0.mkv".into());
    entry.stream = Some(StreamSelect::Audio(2));
    let p = plan_producer(&entry, false);
    assert_eq!(p.resource, "/media/0.mkv");
    let audio = p.settings.iter().find(|s| s.key == "audio_index");
    assert_eq!(audio.map(|s| &s.value), Some(&SettingValue::Number(2)));
    let blank = plan_entry(&Entry::Blank { length: Frame(9) }, false);
    assert_eq!(blank, EntryPlan::Blank(9));
}

#[test]
fn an_export_can_leave_the_text_and_route_the_sound() {
    let tl = fixture(&[
        ("V1", &[(0, 10, "a")]),
        ("A1", &[(0, 10, "b")]),
        ("A2", &[(0, 10, "c")]),
        ("T1", &[(0, 10, "cue")]),
    ]);
    let mut p = proj(&tl);
    let (layout, _) = prepare(&mut p, true, false);
    assert_eq!(layout.map(|l| l.total_channels), Some(4));
    assert!(p.tracks.iter().all(|t| t.kind != TrackKind::Text));
    let mut whole = proj(&tl);
    assert_eq!(whole.clone(), whole);
    let (layout, _) = prepare(&mut whole, false, true);
    assert!(layout.is_none());
    assert_eq!(whole.tracks.len(), 4);
}

#[test]
fn a_transition_needs_a_service() {
    assert!(check_transition("glow", "frei0r.glow").is_ok());
    let refused = check_transition("glow", "  ").unwrap_err();
    assert_eq!(
        refused,
        BackendError::Unavailable {
            reason: "the transition type 'glow' names no service".into()
        }
    );
}

#[test]
fn equal_lists_need_no_edit() {
    let tl = fixture(&[("V1", &[(3, 10, "a"), (20, 5, "b")])]);
    let p = proj(&tl);
    assert!(diff_entries(&p.tracks[0].entries, &p.tracks[0].entries).is_empty());
}
