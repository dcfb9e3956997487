//! Edits, their history, macros, project files and plugins.

use davimci::class::ErrorClass;
use davimci::cmd::command::{EditCommand, Step};
use davimci::cmd::error::{CmdError, CoreError};
use davimci::cmd::macros::MacroRecorder;
use davimci::cmd::project::{
    migrate, read_document, ProjectError, ProjectFile, FORMAT_VERSION,
};
use davimci::cmd::session::Session;
use davimci::cmd::undo::{NodeId, UndoTree, DEFAULT_SNAPSHOT_INTERVAL};
use davimci::model::{
    Clip, ClipId, ClipProps, Fps, Frame, Playhead, Resolution, Timeline, TimelineProps, Track,
    TrackId, TrackKind,
};
use davimci::pack::command::{add_line, parse, sync_line, usage, Command};
use davimci::pack::error::{check_manifest, PackError};
use davimci::pack::job::{Action, Event, Job};
use davimci::pack::list::{short, sort_names};
use davimci::pack::lock::{list, Lock, Pin};
use davimci::pack::paths::{join_path, Kind, Paths};
use davimci::pack::plan::{
    choose_paths, names_to_update, plan_add, plan_checkout, plan_head, plan_remove, plan_sync,
    plan_update, Wanted,
};
use davimci::pack::spec::Spec;

fn tokens(v: &[&str]) -> Vec<String> {
    v.iter().map(|s| (*s).to_string()).collect()
}

fn fixture() -> Timeline {
    let empty = |id: u64, name: &str, kind: TrackKind| Track {
        id: TrackId(id),
        name: name.to_string(),
        kind,
        muted: false,
        solo: false,
        clips: Vec::new(),
    };
    let mut v1 = empty(1, "V1", TrackKind::Video);
    v1.clips.push(Clip {
        id: ClipId(10),
        label: "a".into(),
        start: Frame(0),
        duration: Frame(300),
        source_in: Frame(0),
        media: None,
        text: None,
        props: ClipProps {
            gain_db: None,
            fade_in: Frame(0),
            fade_out: Frame(0),
            placement: None,
            opacity: None,
        },
        group: None,
        transition_in: None,
    });
    Timeline {
        props: TimelineProps {
            fps: Fps { num: 60, den: 1 },
            resolution: Resolution {
                width: 1920,
                height: 1080,
            },
            sample_rate: 48_000,
        },
        tracks: vec![v1, empty(2, "A1", TrackKind::Audio)],
        markers: Vec::new(),
        marks: Vec::new(),
        playhead: Playhead {
            frame: Frame(0),
            track: TrackId(1),
        },
        id_cursor: 100,
    }
}

fn dump(tl: &Timeline) -> String {
    let mut out = String::new();
    for t in &tl.tracks {
        out.push_str(&t.name);
        out.push(':');
        if t.clips.is_empty() {
            out.push_str(" -");
        }
        for c in &t.clips {
            out.push_str(&format!("[{} {}-{}]", c.label, c.start.0, c.end().0));
        }
        out.push('\n');
    }
    out
}

fn split_at(frame: u64) -> EditCommand {
    EditCommand::Split {
        track: TrackId(1),
        frame: Frame(frame),
        new_id: None,
    }
}

fn scene() -> Session {
    Session::new(fixture())
}

#[test]
fn user_mistakes_are_user_errors() {
    assert_eq!(CmdError::NothingToUndo.class(), ErrorClass::User);
    assert_eq!(CmdError::NoSuchMacro('a').class(), ErrorClass::User);
}

#[test]
fn a_core_rejection_keeps_its_class() {
    let e = CmdError::Core(CoreError::ZeroDuration);
    assert_eq!(e.class(), ErrorClass::User);
    assert!(!e.user_message().is_empty());
}

#[test]
fn replay_failure_is_corruption() {
    let e = CmdError::ReplayFailed("bad inverse".into());
    assert_eq!(e.class(), ErrorClass::Corruption);
    assert!(!e.class().is_continuable());
}

#[test]
fn every_edit_error_has_its_sentence() {
    let core = [
        CoreError::ZeroDuration,
        CoreError::NoSuchTrack(TrackId(4)),
        CoreError::NothingToSplit(Frame(9)),
        CoreError::NothingToJoin(Frame(9)),
        CoreError::OutOfIds,
    ];
    for e in core {
        assert!(!e.message().is_empty());
    }
    let all = [
        CmdError::NothingToUndo,
        CmdError::NothingToRedo,
        CmdError::NothingToRepeat,
        CmdError::NoSuchMacro('a'),
        CmdError::NotRecording,
        CmdError::AlreadyRecording('b'),
        CmdError::ReplayFailed("x".into()),
    ];
    for e in &all {
        assert!(!e.user_message().is_empty(), "{e:?}");
    }
}

#[test]
fn record_then_replay() {
    let mut m = MacroRecorder::new();
    assert_eq!(m.recording(), None);
    assert!(m.start('a').is_ok());
    assert_eq!(m.recording(), Some('a'));
    m.push("x");
    m.push("w");
    m.push("q");
    m.pop();
    assert_eq!(m.stop(), Ok('a'));
    assert_eq!(m.replay('a'), Ok(tokens(&["x", "w"]).as_slice()));
}

#[test]
fn an_uppercase_register_appends() {
    let mut m = MacroRecorder::new();
    m.set('a', tokens(&["x"]));
    assert!(m.start('A').is_ok());
    m.push("w");
    assert!(m.stop().is_ok());
    assert_eq!(m.replay('a'), Ok(tokens(&["x", "w"]).as_slice()));
}

#[test]
fn recording_twice_is_a_user_error() {
    let mut m = MacroRecorder::new();
    assert!(m.start('a').is_ok());
    assert_eq!(m.start('b'), Err(CmdError::AlreadyRecording('a')));
}

#[test]
fn stopping_without_recording_is_a_user_error() {
    let mut m = MacroRecorder::new();
    assert_eq!(m.stop(), Err(CmdError::NotRecording));
}

#[test]
fn an_empty_or_unknown_register_cannot_be_replayed() {
    let mut m = MacroRecorder::new();
    assert_eq!(m.replay('z'), Err(CmdError::NoSuchMacro('z')));
    assert!(m.start('z').is_ok());
    assert!(m.stop().is_ok());
    assert_eq!(m.replay('z'), Err(CmdError::NoSuchMacro('z')));
}

#[test]
fn a_split_is_undone_by_a_join() {
    let mut tl = fixture();
    let before = tl.clone();
    let done = split_at(100).apply(&mut tl).unwrap();
    assert_eq!(dump(&tl), "V1:[a 0-100][a 100-300]\nA1: -\n");
    assert_eq!(done.applied.steps().len(), 1);
    done.inverse.apply(&mut tl).unwrap();
    assert_eq!(tl.tracks, before.tracks);
    assert!(done.applied.describe().starts_with("split at 100"));
    assert!(matches!(
        done.applied.for_repeat(),
        EditCommand::Split { new_id: None, .. }
    ));
}

#[test]
fn a_sequence_is_applied_whole_or_not_at_all() {
    let mut tl = fixture();
    let before = tl.clone();
    let bad = EditCommand::Sequence(vec![
        Step::Split {
            track: TrackId(1),
            frame: Frame(100),
            new_id: None,
        },
        Step::Join {
            track: TrackId(1),
            frame: Frame(7),
        },
    ]);
    assert_eq!(
        bad.apply(&mut tl).unwrap_err(),
        CmdError::Core(CoreError::NothingToJoin(Frame(7)))
    );
    assert_eq!(tl.tracks, before.tracks);
    assert_eq!(
        split_at(0).apply(&mut tl).unwrap_err(),
        CmdError::Core(CoreError::NothingToSplit(Frame(0)))
    );
    let elsewhere = EditCommand::Split {
        track: TrackId(77),
        frame: Frame(5),
        new_id: None,
    };
    assert_eq!(
        elsewhere.apply(&mut tl).unwrap_err(),
        CmdError::Core(CoreError::NoSuchTrack(TrackId(77)))
    );
}

#[test]
fn undo_restores_byte_identical_state() {
    let mut s = scene();
    let start = s.timeline().clone();
    let cmds = [split_at(100), split_at(200), split_at(50)];
    for c in &cmds {
        s.exec(c).unwrap();
    }
    assert_eq!(
        dump(s.timeline()),
        "V1:[a 0-50][a 50-100][a 100-200][a 200-300]\nA1: -\n"
    );
    for _ in 0..cmds.len() {
        s.undo().unwrap();
    }
    assert_eq!(*s.timeline(), start);
    assert_eq!(s.undo(), Err(CmdError::NothingToUndo));
}

#[test]
fn redo_reproduces_byte_identical_state() {
    let mut s = scene();
    s.exec(&split_at(100)).unwrap();
    s.exec(&split_at(200)).unwrap();
    let done = s.timeline().clone();
    s.undo().unwrap();
    s.undo().unwrap();
    s.redo().unwrap();
    s.redo().unwrap();
    assert_eq!(*s.timeline(), done);
    assert_eq!(s.redo(), Err(CmdError::NothingToRedo));
}

#[test]
fn redo_after_branching_follows_the_newest_branch() {
    let mut s = scene();
    s.exec(&split_at(100)).unwrap();
    s.undo().unwrap();
    s.exec(&split_at(200)).unwrap();
    let newest = s.timeline().clone();
    s.undo().unwrap();
    s.redo().unwrap();
    assert_eq!(*s.timeline(), newest, "redo must take the newest branch");
    assert_eq!(s.undolist().len(), 2, "the abandoned branch is kept");
}

#[test]
fn time_travel_visits_states_in_change_order_across_branches() {
    let mut s = scene();
    s.exec(&split_at(100)).unwrap();
    s.undo().unwrap();
    s.exec(&split_at(200)).unwrap();
    assert_eq!(s.time_travel_back(), Ok(1));
    assert_eq!(dump(s.timeline()), "V1:[a 0-100][a 100-300]\nA1: -\n");
    assert_eq!(s.time_travel_back(), Ok(0));
    assert_eq!(dump(s.timeline()), "V1:[a 0-300]\nA1: -\n");
    assert_eq!(s.time_travel_back(), Err(CmdError::NothingToUndo));
    assert_eq!(s.time_travel_forward(), Ok(1));
    assert_eq!(s.time_travel_forward(), Ok(2));
    assert_eq!(dump(s.timeline()), "V1:[a 0-200][a 200-300]\nA1: -\n");
    assert_eq!(s.time_travel_forward(), Err(CmdError::NothingToRedo));
}

#[test]
fn a_rejected_command_never_enters_the_log() {
    let mut s = scene();
    let before = s.timeline().clone();
    // Frame 0 is already a cut, so there is nothing to split.
    assert!(s.exec(&split_at(0)).is_err());
    assert_eq!(*s.timeline(), before);
    assert!(s.undolist().is_empty());
    assert_eq!(s.undo(), Err(CmdError::NothingToUndo));
}

#[test]
fn repeat_reruns_the_last_edit() {
    let mut s = scene();
    s.exec(&split_at(100)).unwrap();
    assert!(s.last_edit().is_some());
    s.exec(&split_at(200)).unwrap();
    let before_repeat = dump(s.timeline());
    assert!(
        s.repeat().is_err(),
        "repeating an impossible split is rejected"
    );
    assert_eq!(dump(s.timeline()), before_repeat);

    let mut s = scene();
    assert_eq!(s.repeat(), Err(CmdError::NothingToRepeat));
    s.exec(&split_at(100)).unwrap();
    s.undo().unwrap();
    s.repeat().unwrap();
    assert_eq!(dump(s.timeline()), "V1:[a 0-100][a 100-300]\nA1: -\n");
}

#[test]
fn a_snapshot_bounds_the_damage_from_a_bad_inverse() {
    let mut tl = fixture();
    let mut tree = UndoTree::new(tl.clone());
    tree.set_snapshot_interval(2);
    exec(&mut tree, &mut tl, &split_at(100));
    exec(&mut tree, &mut tl, &split_at(200));
    let snapshotted = tl.clone();

    // A third edit whose "inverse" does something unrelated.
    let e = split_at(250).apply(&mut tl).unwrap();
    tree.record(e.applied, EditCommand::Sequence(Vec::new()), &tl);

    // Undo runs the wrong inverse, and the snapshot puts it right.
    tree.undo(&mut tl).unwrap();
    assert_eq!(tl, snapshotted, "the snapshot must win");
}

#[test]
fn saving_pins_a_snapshot_at_the_current_state() {
    let mut s = scene();
    s.set_snapshot_interval(0);
    s.exec(&split_at(100)).unwrap();
    s.mark_saved();
    let (snapshot, log) = s.history().compacted();
    assert!(log.is_empty(), "the save point needs no replay");
    assert_eq!(&snapshot, s.timeline());
}

#[test]
fn macros_live_alongside_the_history() {
    let mut s = scene();
    s.macros_mut().start('a').unwrap();
    s.macros_mut().push("s");
    s.macros_mut().stop().unwrap();
    assert_eq!(s.macros().replay('a').map(<[String]>::len), Ok(1));
}

fn exec(tree: &mut UndoTree, tl: &mut Timeline, cmd: &EditCommand) {
    let e = cmd.apply(tl).unwrap();
    tree.record(e.applied, e.inverse, tl);
}

fn tree_scene() -> (UndoTree, Timeline) {
    let tl = fixture();
    (UndoTree::new(tl.clone()), tl)
}

#[test]
fn a_fresh_tree_holds_only_the_root() {
    let (tree, _) = tree_scene();
    assert!(tree.is_empty());
    assert!(tree.at_root());
    assert!(tree.undolist().is_empty());
    assert_eq!(DEFAULT_SNAPSHOT_INTERVAL, 100);
}

#[test]
fn undolist_reports_change_order_depth_and_position() {
    let (mut tree, mut tl) = tree_scene();
    exec(&mut tree, &mut tl, &split_at(100));
    exec(&mut tree, &mut tl, &split_at(200));
    tree.undo(&mut tl).unwrap();

    let rows = tree.undolist();
    assert_eq!(rows.len(), 2);
    assert_eq!(rows[0].seq, 1);
    assert_eq!(rows[0].depth, 1);
    assert!(rows[0].current, "undo left us on the first change");
    assert_eq!(rows[1].seq, 2);
    assert!(!rows[1].current);
    assert!(rows[1].description.starts_with("split at 200"));
}

#[test]
fn a_snapshot_lets_a_state_be_rebuilt_from_scratch() {
    let (mut tree, mut tl) = tree_scene();
    tree.set_snapshot_interval(2);
    exec(&mut tree, &mut tl, &split_at(100));
    exec(&mut tree, &mut tl, &split_at(200));
    let rebuilt = tree.rebuild(tree.current()).unwrap();
    assert_eq!(rebuilt, tl);
}

#[test]
fn compacting_gives_the_snapshot_plus_the_log_since_it() {
    let (mut tree, mut tl) = tree_scene();
    tree.set_snapshot_interval(0);
    exec(&mut tree, &mut tl, &split_at(100));
    exec(&mut tree, &mut tl, &split_at(200));
    let (snapshot, log) = tree.compacted();
    // Only the root is snapshotted, so the log carries both edits.
    assert_eq!(log.len(), 2);
    let mut replayed = snapshot;
    for cmd in &log {
        cmd.apply(&mut replayed).unwrap();
    }
    assert_eq!(dump(&replayed), dump(&tl));
}

#[test]
fn goto_walks_across_branches() {
    let (mut tree, mut tl) = tree_scene();
    exec(&mut tree, &mut tl, &split_at(100));
    let first_branch = tree.current();
    let at_100 = dump(&tl);
    tree.undo(&mut tl).unwrap();
    exec(&mut tree, &mut tl, &split_at(200));
    let second_branch = tree.current();

    tree.goto(first_branch, &mut tl).unwrap();
    assert_eq!(dump(&tl), at_100);
    tree.goto(second_branch, &mut tl).unwrap();
    assert_eq!(dump(&tl), "V1:[a 0-200][a 200-300]\nA1: -\n");
}

#[test]
fn goto_rejects_a_state_that_is_not_in_the_history() {
    let (mut tree, mut tl) = tree_scene();
    assert!(matches!(
        tree.goto(NodeId(42), &mut tl),
        Err(CmdError::ReplayFailed(_))
    ));
}

fn saved_session() -> Session {
    let mut s = scene();
    s.set_snapshot_interval(0);
    for frame in [100, 200] {
        s.exec(&split_at(frame)).unwrap();
    }
    s
}

#[test]
fn a_project_round_trips_to_the_same_timeline() {
    let s = saved_session();
    let file = ProjectFile::from_session(&s);
    assert_eq!(file.version, FORMAT_VERSION);
    assert_eq!(
        file.log.len(),
        2,
        "the log carries the edits since the root"
    );
    let timeline = file.into_timeline().unwrap();
    assert_eq!(&timeline, s.timeline(), "reload must be byte-identical");
}

#[test]
fn a_save_point_stores_a_snapshot_with_an_empty_log() {
    let mut s = saved_session();
    s.mark_saved();
    let file = ProjectFile::from_session(&s);
    assert!(file.log.is_empty());
    assert_eq!(&file.snapshot, s.timeline());
}

#[test]
fn opening_a_project_starts_a_fresh_history() {
    let s = saved_session();
    let opened = ProjectFile::from_session(&s).into_session().unwrap();
    assert_eq!(opened.timeline(), s.timeline());
    assert!(opened.undolist().is_empty());
}

#[test]
fn a_version_zero_document_is_migrated_forward() {
    // Version 0: no `version` field, no command log.
    let v0 = serde_json::from_str("{\"snapshot\":{\"tracks\":[]}}").unwrap();
    let file: serde_json::Value = migrate(v0).unwrap();
    assert_eq!(
        file.get("version").and_then(serde_json::Value::as_u64),
        Some(u64::from(FORMAT_VERSION))
    );
    assert_eq!(
        file.get("log").and_then(serde_json::Value::as_array).map(Vec::len),
        Some(0)
    );
    assert!(file.get("snapshot").is_some_and(|s| s.get("tracks").is_some()));
    // A document of this version is left alone.
    let again = migrate(file.clone()).unwrap();
    assert_eq!(again, file);
}

#[test]
fn a_newer_format_is_refused_with_a_readable_message() {
    let text = format!(
        "{{\"version\":{},\"snapshot\":{{}}}}",
        FORMAT_VERSION + 1
    );
    let err = read_document(&text).unwrap_err();
    assert_eq!(err, ProjectError::TooNew(FORMAT_VERSION + 1));
    assert_eq!(err.class(), ErrorClass::User);
    assert!(err.user_message().contains("newer vimci"));
}

#[test]
fn a_malformed_document_is_corruption_not_a_crash() {
    for text in ["", "{", "[]", "{\"version\":0}", "null"] {
        let err = read_document(text).unwrap_err();
        assert_eq!(err.class(), ErrorClass::Corruption, "{text}");
        assert!(!err.user_message().is_empty());
    }
}

#[test]
fn an_unreplayable_log_is_reported_not_applied() {
    let s = saved_session();
    let mut file = ProjectFile::from_session(&s);
    file.log.push(EditCommand::Join {
        track: TrackId(1),
        frame: Frame(7),
    });
    let err = file.into_timeline().unwrap_err();
    assert!(matches!(err, ProjectError::Unreplayable(_)));
    assert_eq!(err.class(), ErrorClass::Corruption);
}

#[test]
fn the_deserializer_never_panics_on_junk() {
    let good = "{\"version\":1,\"snapshot\":{\"props\":{\"fps\":{\"num\":60,\"den\":1}},\
                \"tracks\":[{\"id\":1,\"name\":\"V1\",\"clips\":[]}],\"marks\":{}},\
                \"log\":[{\"Split\":{\"track\":1,\"frame\":100,\"new_id\":101}}],\
                \"id_cursor\":102}";
    assert!(read_document(good).is_ok());
    let bytes = good.as_bytes();
    let mut seed = 0x2545_F491_4F6C_DD1D_u64;
    for _ in 0..2000 {
        seed ^= seed << 13;
        seed ^= seed >> 7;
        seed ^= seed << 17;
        let cut = (seed as usize) % bytes.len();
        let mut mutated = bytes.to_vec();
        mutated.truncate(cut);
        if seed % 3 == 0 {
            mutated.push(b'}');
        }
        if seed % 5 == 0 && cut > 0 {
            let at = (seed >> 8) as usize % cut;
            if let Some(b) = mutated.get_mut(at) {
                *b = (seed >> 16) as u8 | 0x20;
            }
        }
        let text = String::from_utf8_lossy(&mutated).into_owned();
        if let Err(e) = read_document(&text) {
            assert!(!e.user_message().is_empty());
        }
    }
}

#[test]
fn a_shorthand_spec_is_github_and_a_url_is_taken_as_written() {
    let s = Spec::parse("user/beatgrid").unwrap();
    assert_eq!(s.url, "https://github.com/user/beatgrid");
    assert_eq!(s.name, "beatgrid");

    let s = Spec::parse("https://git.example.org/a/b.git").unwrap();
    assert_eq!(s.url, "https://git.example.org/a/b.git");
    assert_eq!(s.name, "b");

    let s = Spec::parse("git.example.org/a/b").unwrap();
    assert_eq!(s.url, "https://git.example.org/a/b");

    // A local checkout is how a plugin is written.
    let s = Spec::parse("/tmp/beatgrid").unwrap();
    assert_eq!(s.url, "/tmp/beatgrid");
    assert_eq!(s.name, "beatgrid");

    assert!(Spec::parse("beatgrid").is_err());
    assert!(Spec::parse("  ").is_err());
}

fn pin(rev: &str, kind: Kind) -> Pin {
    Pin {
        url: "https://github.com/user/beatgrid".into(),
        rev: rev.into(),
        kind,
    }
}

#[test]
fn a_lock_holds_what_was_pinned() {
    let mut lock = Lock::default();
    assert!(lock.names().is_empty());
    lock.insert("beatgrid".into(), pin("9c1f0aa", Kind::Opt));
    assert_eq!(lock.get("beatgrid"), Some(&pin("9c1f0aa", Kind::Opt)));
    lock.insert("beatgrid".into(), pin("1234567890abcdef", Kind::Start));
    assert_eq!(lock.names(), vec!["beatgrid".to_string()]);
    assert_eq!(
        plan_sync(&lock, &Vec::new()),
        vec![Wanted {
            plugin: Spec {
                url: "https://github.com/user/beatgrid".into(),
                name: "beatgrid".into(),
            },
            kind: Kind::Start,
            rev: Some("1234567890abcdef".into()),
        }]
    );
    assert!(plan_sync(&lock, &vec!["beatgrid".to_string()]).is_empty());
    assert!(lock.line("beatgrid", Kind::Start).contains("beatgrid"));
    assert!(lock.update_line("beatgrid", "1234567890abcdef").contains("beatgrid"));
    let lines = list(&lock, vec!["beatgrid".to_string()], Vec::new());
    assert_eq!(lines.len(), 1);
    lock.remove("beatgrid");
    assert!(lock.get("beatgrid").is_none());
}

#[test]
fn everything_installed_lands_in_this_programs_own_group() {
    let paths = Paths {
        config: "/c".into(),
        site: "/s".into(),
    };
    assert_eq!(
        paths.install_dir(Kind::Start, "beatgrid"),
        "/s/pack/fetched/start/beatgrid"
    );
    assert_eq!(paths.lockfile(), "/c/davimci-lock.json");
}

#[test]
fn a_plugin_is_found_where_it_lies() {
    let paths = Paths {
        config: "/c".into(),
        site: "/s".into(),
    };
    assert_eq!(
        paths.find("beatgrid", false, true),
        Some((Kind::Opt, "/s/pack/fetched/opt/beatgrid".into()))
    );
    assert_eq!(
        paths.find("beatgrid", true, true).map(|f| f.0),
        Some(Kind::Start)
    );
    assert!(paths.find("beatgrid", false, false).is_none());
    assert_eq!(paths.kind_dir(Kind::Opt), "/s/pack/fetched/opt");
    assert_eq!(join_path("/a", "b"), "/a/b");
    assert_eq!(join_path("/a/", "b"), "/a/b");
    assert_eq!(Kind::Start.dir(), "start");
}

#[test]
fn an_install_is_refused_when_the_manifest_names_another_plugin() {
    let e = check_manifest("/p/davimci.toml", "other", "beatgrid", "^1.0", "1.0", true)
        .unwrap_err();
    assert!(e.message().contains("installs as 'beatgrid'"), "{e:?}");
    let e = check_manifest("/p/davimci.toml", "beatgrid", "beatgrid", "^9.0", "1.0", false)
        .unwrap_err();
    assert!(e.message().contains("api"), "{e:?}");
    assert!(
        check_manifest("/p/davimci.toml", "beatgrid", "beatgrid", "^1.0", "1.0", true).is_ok()
    );
}

#[test]
fn arguments_become_a_command() {
    assert_eq!(parse(&tokens(&["list"])).unwrap(), Command::List);
    assert_eq!(parse(&tokens(&["sync"])).unwrap(), Command::Sync);
    assert_eq!(parse(&Vec::new()).unwrap(), Command::Help);
    assert_eq!(
        parse(&tokens(&["remove", "beatgrid"])).unwrap(),
        Command::Remove("beatgrid".into())
    );
    assert_eq!(
        parse(&tokens(&["update", "a", "b"])).unwrap(),
        Command::Update(tokens(&["a", "b"]))
    );
    assert!(matches!(
        parse(&tokens(&["add", "user/beatgrid", "--opt"])).unwrap(),
        Command::Add { kind: Kind::Opt, .. }
    ));
    assert_eq!(parse(&tokens(&["add"])).unwrap_err(), PackError::AddWhat);
    assert_eq!(
        parse(&tokens(&["remove"])).unwrap_err(),
        PackError::RemoveWhat
    );
    assert_eq!(
        parse(&tokens(&["frobnicate"])).unwrap_err(),
        PackError::UnknownCommand("frobnicate".into())
    );
    assert!(!usage().is_empty());
    assert!(add_line("beatgrid", "9c1f0aa2").contains("beatgrid"));
    assert_ne!(sync_line(&Vec::new()), sync_line(&tokens(&["beatgrid"])));
}

#[test]
fn every_plugin_error_has_its_sentence() {
    let all = [
        PackError::Unnamed,
        PackError::NotAPlugin("x".into()),
        PackError::Nameless("x".into()),
        PackError::AddWhat,
        PackError::RemoveWhat,
        PackError::UnknownCommand("x".into()),
        PackError::AlreadyInstalled("x".into()),
        PackError::NotInstalled("x".into()),
        PackError::Git {
            arguments: "clone x".into(),
            reason: "no".into(),
        },
    ];
    for e in &all {
        assert!(!e.message().is_empty(), "{e:?}");
    }
}

#[test]
fn names_are_sorted_and_revisions_shortened() {
    assert_eq!(
        sort_names(tokens(&["zoom", "beat", "mark"])),
        tokens(&["beat", "mark", "zoom"])
    );
    assert_eq!(short("1234567890abcdef"), "123456789");
    assert_eq!(short("12"), "12");
}

#[test]
fn a_state_that_is_not_in_the_history_cannot_be_rebuilt() {
    let tree = UndoTree::new(fixture());
    match tree.rebuild(NodeId(7)) {
        Err(CmdError::ReplayFailed(reason)) => assert_eq!(reason, "no snapshot to rebuild from"),
        other => panic!("{other:?}"),
    }
}

#[test]
fn overlapping_clips_are_not_well_formed() {
    let mut t = fixture();
    assert!(t.is_well_formed());
    t.tracks[1].id = t.tracks[0].id;
    assert!(!t.is_well_formed(), "two tracks share an id");
    let mut t = fixture();
    t.tracks[0].clips[0].duration = Frame(0);
    assert!(!t.is_well_formed(), "a clip without frames");
}

#[test]
fn installing_clones_and_then_checks_out_what_was_asked_for() {
    let paths = Paths {
        config: "/c".into(),
        site: "/s".into(),
    };
    let plugin = Spec::parse("user/beatgrid").unwrap();
    let plan = plan_add(&paths, &plugin, Kind::Opt, Some("9c1f0aa"), false).unwrap();
    assert_eq!(plan.parent, "/s/pack/fetched/opt");
    assert_eq!(plan.dir, "/s/pack/fetched/opt/beatgrid");
    assert_eq!(plan.calls.len(), 2);
    assert_eq!(plan.calls[0].dir, "/s/pack/fetched/opt");
    assert_eq!(
        plan.calls[0].args.join(" "),
        "clone --quiet https://github.com/user/beatgrid /s/pack/fetched/opt/beatgrid"
    );
    assert_eq!(plan.calls[1].dir, plan.dir);
    assert_eq!(plan.calls[1].args.join(" "), "checkout --quiet 9c1f0aa");
    let plan = plan_add(&paths, &plugin, Kind::Start, None, false).unwrap();
    assert_eq!(plan.calls.len(), 1);
    for (name, parent) in [
        ("a/b", "/s/pack/fetched/start/a"),
        ("a//b/", "/s/pack/fetched/start/a"),
        ("a/./b/.", "/s/pack/fetched/start/a"),
        ("", "/s/pack/fetched"),
        ("../opt/b", "/s/pack/fetched/start/../opt"),
    ] {
        let deep = Spec {
            url: "u".into(),
            name: name.into(),
        };
        let plan = plan_add(&paths, &deep, Kind::Start, None, false).unwrap();
        assert_eq!(plan.parent, parent);
        assert_eq!(plan.dir, format!("/s/pack/fetched/start/{name}"));
        assert_eq!(plan.calls[0].dir, parent);
    }
    let up = Spec {
        url: "https://github.com/user/..".into(),
        name: "..".into(),
    };
    assert_eq!(
        plan_add(&paths, &up, Kind::Start, None, false),
        Err(PackError::Nameless("..".into()))
    );
    assert_eq!(
        plan_add(&paths, &plugin, Kind::Start, None, true),
        Err(PackError::AlreadyInstalled("beatgrid".into()))
    );
}

#[test]
fn updating_falls_back_to_the_default_branch() {
    let found = Some((Kind::Start, "/d".to_string()));
    let plan = plan_update("beatgrid", found).unwrap();
    assert_eq!(plan.kind, Kind::Start);
    assert_eq!(plan.origin.args.join(" "), "remote get-url origin");
    assert_eq!(plan.fetch.args.join(" "), "fetch --quiet origin");
    assert_eq!(
        plan.branch.args.join(" "),
        "rev-parse --abbrev-ref origin/HEAD"
    );
    assert_eq!(
        plan_checkout("/d", Some("origin/main".into())).args.join(" "),
        "checkout --quiet --force origin/main"
    );
    assert_eq!(
        plan_checkout("/d", None).args.join(" "),
        "checkout --quiet --force origin/HEAD"
    );
    assert_eq!(plan_head("/d").args.join(" "), "rev-parse HEAD");
    let found = Some((Kind::Opt, "/d".to_string()));
    assert_eq!(plan_update("a/b", found).unwrap().kind, Kind::Opt);
    assert_eq!(
        plan_update("../../manual/mine", Some((Kind::Start, "/d".to_string()))),
        Err(PackError::NotInstalled("../../manual/mine".into()))
    );
    assert_eq!(
        plan_update("beatgrid", None),
        Err(PackError::NotInstalled("beatgrid".into()))
    );
}

#[test]
fn directories_that_are_set_win_over_those_of_the_editor() {
    let text = |s: &str| Some(s.to_string());
    let editor = || Some(("/e".to_string(), text("/e/site")));
    let both = choose_paths(text("/c"), text("/s"), editor()).unwrap();
    assert_eq!((both.config.as_str(), both.site.as_str()), ("/c", "/s"));
    let one = choose_paths(text("/c"), None, editor()).unwrap();
    assert_eq!((one.config.as_str(), one.site.as_str()), ("/e", "/e/site"));
    let e = choose_paths(None, None, None).unwrap_err();
    assert_eq!(
        e.message(),
        "no HOME, so there is no config directory to install into"
    );
    let e = choose_paths(None, text("/s"), Some(("/e".into(), None))).unwrap_err();
    assert_eq!(e.message(), "no site directory to install into");
}

#[test]
fn updating_without_names_updates_everything_pinned() {
    let mut lock = Lock::default();
    for name in ["b", "a"] {
        lock.insert(
            name.to_string(),
            Pin {
                url: "u".into(),
                rev: "r".into(),
                kind: Kind::Start,
            },
        );
    }
    assert_eq!(names_to_update(&lock, Vec::new()), tokens(&["a", "b"]));
    assert_eq!(names_to_update(&lock, tokens(&["b"])), tokens(&["b"]));
}

#[test]
fn removing_stays_inside_the_group() {
    let paths = Paths {
        config: "/c".into(),
        site: "/s".into(),
    };
    assert_eq!(
        plan_remove(&paths, "beatgrid", false, true),
        Ok("/s/pack/fetched/opt/beatgrid".to_string())
    );
    assert_eq!(
        plan_remove(&paths, "beatgrid", true, true),
        Ok("/s/pack/fetched/start/beatgrid".to_string())
    );
    for (name, dir) in [
        ("a/b", "/s/pack/fetched/start/a/b"),
        ("../opt/beatgrid", "/s/pack/fetched/start/../opt/beatgrid"),
        ("a/../b", "/s/pack/fetched/start/a/../b"),
        (".", "/s/pack/fetched/start/."),
        ("", "/s/pack/fetched/start/"),
    ] {
        assert_eq!(plan_remove(&paths, name, true, true), Ok(dir.to_string()));
    }
    for name in ["..", "/home", "a/../..", "../../manual", "../../fetched/start/a"] {
        assert_eq!(
            plan_remove(&paths, name, true, true),
            Err(PackError::NotInstalled(name.to_string()))
        );
    }
    assert_eq!(
        plan_remove(&paths, "beatgrid", false, false),
        Err(PackError::NotInstalled("beatgrid".into()))
    );
}

fn job(pinned: &[(&str, &str)], args: &[&str]) -> Job {
    let mut lock = Lock::default();
    for (name, rev) in pinned {
        lock.insert(name.to_string(), pin(rev, Kind::Opt));
    }
    Job::new(lock, parse(&tokens(args)).unwrap())
}

fn restoring(name: &str, rev: &str) -> Action {
    Action::Install(Wanted {
        plugin: Spec {
            url: "https://github.com/user/beatgrid".into(),
            name: name.into(),
        },
        kind: Kind::Opt,
        rev: Some(rev.into()),
    })
}

#[test]
fn an_installed_plugin_is_pinned_and_then_written() {
    let mut job = job(&[], &["add", "user/beatgrid"]);
    let step = job.step(Event::Begin);
    assert!(step.said.is_empty());
    assert_eq!(
        step.action,
        Action::Install(Wanted {
            plugin: Spec::parse("user/beatgrid").unwrap(),
            kind: Kind::Start,
            rev: None,
        })
    );
    let step = job.step(Event::Pinned(pin("1234567890abcdef", Kind::Start)));
    assert_eq!(step.said, tokens(&["installed beatgrid at 123456789"]));
    assert_eq!(step.action, Action::Write);
    assert_eq!(
        job.lock().get("beatgrid"),
        Some(&pin("1234567890abcdef", Kind::Start))
    );
    let step = job.step(Event::Written);
    assert!(step.said.is_empty());
    assert_eq!(step.action, Action::Stop);
}

#[test]
fn updates_are_written_after_the_last_of_them() {
    let mut job = job(&[("b", "old"), ("a", "same")], &["update"]);
    assert_eq!(job.step(Event::Begin).action, Action::Update("a".into()));
    let step = job.step(Event::Pinned(pin("same", Kind::Opt)));
    assert_eq!(step.said, tokens(&["a already current"]));
    assert_eq!(step.action, Action::Update("b".into()));
    let step = job.step(Event::Pinned(pin("new", Kind::Opt)));
    assert_eq!(step.said, tokens(&["b updated to new"]));
    assert_eq!(step.action, Action::Write);
    assert_eq!(job.lock().get("b"), Some(&pin("new", Kind::Opt)));
    assert_eq!(job.step(Event::Written).action, Action::Stop);
}

#[test]
fn updating_nothing_says_so_and_writes() {
    let mut job = job(&[], &["update"]);
    let step = job.step(Event::Begin);
    assert_eq!(step.said, tokens(&["nothing is installed"]));
    assert_eq!(step.action, Action::Write);
}

#[test]
fn a_failed_update_writes_nothing() {
    let mut job = job(&[("a", "1"), ("b", "1")], &["update"]);
    job.step(Event::Begin);
    job.step(Event::Pinned(pin("2", Kind::Opt)));
    let before = job.lock().get("a").cloned();
    for event in [Event::Failed, Event::Written, Event::Pinned(pin("3", Kind::Opt))] {
        let step = job.step(event);
        assert!(step.said.is_empty());
        assert_eq!(step.action, Action::Stop);
        assert_eq!(job.lock().get("a").cloned(), before);
        assert_eq!(job.lock().get("b"), Some(&pin("1", Kind::Opt)));
    }
}

#[test]
fn a_failed_install_pins_nothing() {
    let mut job = job(&[], &["add", "user/beatgrid"]);
    job.step(Event::Begin);
    assert_eq!(job.step(Event::Failed).action, Action::Stop);
    assert!(job.lock().names().is_empty());
}

#[test]
fn restoring_goes_name_by_name_and_leaves_the_pins() {
    let mut job = job(&[("c", "3"), ("a", "1"), ("b", "2")], &["sync"]);
    assert_eq!(job.step(Event::Begin).action, Action::Find("a".into()));
    assert_eq!(job.step(Event::Found(false)).action, restoring("a", "1"));
    let step = job.step(Event::Pinned(pin("9", Kind::Opt)));
    assert_eq!(step.action, Action::Find("b".into()));
    assert_eq!(job.step(Event::Found(true)).action, Action::Find("c".into()));
    assert_eq!(job.step(Event::Found(false)).action, restoring("c", "3"));
    let step = job.step(Event::Pinned(pin("9", Kind::Opt)));
    assert_eq!(step.said, tokens(&["installed a, c"]));
    assert_eq!(step.action, Action::Stop);
    assert_eq!(job.lock().get("a"), Some(&pin("1", Kind::Opt)));
    let missing: Vec<String> = plan_sync(job.lock(), &tokens(&["b"]))
        .into_iter()
        .map(|w| w.plugin.name)
        .collect();
    assert_eq!(missing, tokens(&["a", "c"]));
}

#[test]
fn restoring_what_is_there_says_so() {
    let mut job = job(&[("a", "1")], &["sync"]);
    job.step(Event::Begin);
    let step = job.step(Event::Found(true));
    assert_eq!(
        step.said,
        tokens(&["every pinned plugin is already installed"])
    );
    assert_eq!(step.action, Action::Stop);
}

#[test]
fn a_removed_plugin_is_unpinned_and_then_named() {
    let mut job = job(&[("a", "1")], &["remove", "a"]);
    assert_eq!(job.step(Event::Begin).action, Action::Delete("a".into()));
    let step = job.step(Event::Gone);
    assert!(step.said.is_empty());
    assert_eq!(step.action, Action::Write);
    assert!(job.lock().names().is_empty());
    let step = job.step(Event::Written);
    assert_eq!(step.said, tokens(&["removed a"]));
    assert_eq!(step.action, Action::Stop);
}

#[test]
fn listing_and_help_only_speak() {
    let mut empty = job(&[], &["list"]);
    assert_eq!(empty.step(Event::Begin).action, Action::List);
    let step = empty.step(Event::Listed {
        start: Vec::new(),
        opt: Vec::new(),
    });
    assert_eq!(step.said, tokens(&["nothing is installed"]));
    assert_eq!(step.action, Action::Stop);

    let mut some = job(&[("a", "1234567890ab")], &["list"]);
    some.step(Event::Begin);
    let step = some.step(Event::Listed {
        start: tokens(&["z", "b"]),
        opt: tokens(&["a"]),
    });
    assert_eq!(
        step.said,
        tokens(&["b  start  unpinned", "z  start  unpinned", "a  opt  123456789"])
    );

    let step = job(&[], &["help"]).step(Event::Begin);
    assert_eq!(step.said, vec![usage()]);
    assert_eq!(step.action, Action::Stop);
}
