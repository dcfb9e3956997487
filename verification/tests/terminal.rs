//! The rows a terminal draws, and what it reports back.

use davimci::model::{Frame, TrackId, TrackKind};
use davimci::tui::input::{
    from_crossterm, KeyCode, KeyEvent, KeyEventKind, Modifiers, TermKey,
};
use davimci::tui::lane::{
    clip_style, fit, fit_to, gutter_label, gutter_text, label_ticks, level_char, GUTTER, RULE,
};
use davimci::tui::panel::{panel_rows, role_style, splice};
use davimci::tui::preview::{Band, Layout, Protocol, Cell, encode};
use davimci::tui::image::Image;
use davimci::tui::render::{command_rows, justify, lines, plain, surface};
use davimci::tui::shell::{modal_key, Event, ModalKey, Step, TermEvent, Tui};
use davimci::tui::style::{flatten, group, paint_text, raw, styled, Color, Span, Style};
use davimci::tui::view::{
    ClipView, CommandLineView, JobView, Label, Message, Overlay, PanelContent, PanelRect,
    PanelRole, PanelSpan, PanelView, PickerEntry, PickerIntent, PickerView, PlayheadView,
    Selection, Severity, Tick, TrackView, ViewState,
};

fn clip_view(linked: bool, offline: bool) -> ClipView {
    ClipView {
        label: "a".into(),
        columns: (0, 5),
        offline,
        linked,
    }
}

fn track_view(kind: TrackKind) -> TrackView {
    TrackView {
        id: TrackId(1),
        name: "V1".into(),
        kind,
        muted: false,
        solo: false,
        locked: false,
        focused: false,
        silenced_by_solo: false,
        clips: Vec::new(),
        waveform: Vec::new(),
    }
}

fn clip_at(label: &str, first: u32, last: u32) -> ClipView {
    ClipView {
        label: label.into(),
        columns: (first, last),
        offline: false,
        linked: false,
    }
}

fn lane_of(id: u64, name: &str, kind: TrackKind, clips: Vec<ClipView>) -> TrackView {
    let mut t = track_view(kind);
    t.id = TrackId(id);
    t.name = name.into();
    t.clips = clips;
    t
}

/// A view with three lanes and the playhead at the start.
fn normal() -> ViewState {
    let mut v1 = lane_of(
        1,
        "V1",
        TrackKind::Video,
        vec![clip_at("a", 0, 6), clip_at("b", 7, 22), clip_at("c", 25, 31)],
    );
    v1.focused = true;
    ViewState {
        mode_line: "-- NORMAL (V1) --".into(),
        recording: None,
        job: None,
        message: None,
        pending: String::new(),
        playhead: PlayheadView {
            frame: Frame(0),
            column: Some(0),
        },
        duration: Frame(500),
        tracks: vec![
            v1,
            lane_of(2, "A1", TrackKind::Audio, vec![clip_at("music", 0, 22)]),
            lane_of(3, "V2", TrackKind::Video, vec![clip_at("over", 3, 9)]),
        ],
        ticks: [(0, true), (7, true), (8, false), (16, false), (22, true), (24, false), (25, true), (31, true)]
            .iter()
            .map(|(column, major)| Tick {
                column: *column,
                major: *major,
            })
            .collect(),
        selection: None,
        panels: Vec::new(),
        command_line: None,
    }
}

fn visual_across_tracks() -> ViewState {
    let mut view = normal();
    view.playhead.column = Some(12);
    view.selection = Some(Selection {
        tracks: vec![TrackId(1), TrackId(2)],
        columns: Some((3, 11)),
    });
    view
}

fn closed() -> Overlay<'static> {
    Overlay {
        picker: None,
        subtitle: None,
    }
}

fn all_views() -> Vec<(&'static str, ViewState)> {
    let mut waveform = normal();
    waveform.tracks[1].waveform = (0..23).map(|i| (i * 11) as u8).collect();
    let mut commanding = normal();
    commanding.command_line = Some(CommandLineView {
        buffer: "wri".into(),
        completions: vec!["write".into()],
    });
    let mut busy = normal();
    busy.job = Some(JobView {
        label: "export".into(),
        percent: 40,
    });
    busy.recording = Some('q');
    vec![
        ("normal", normal()),
        ("visual", visual_across_tracks()),
        ("waveform", waveform),
        ("commanding", commanding),
        ("busy", busy),
        ("panel", panel_view()),
    ]
}

fn panel_view() -> ViewState {
    let mut view = normal();
    view.panels.push(PanelView {
        title: Some("which-key".into()),
        rect: PanelRect {
            row: 1,
            column: 20,
            rows: 4,
            columns: 24,
        },
        focus: true,
        content: PanelContent::Lines(vec![vec![
            PanelSpan {
                text: "g".into(),
                role: PanelRole::Key,
            },
            PanelSpan {
                text: " go to the start".into(),
                role: PanelRole::Normal,
            },
        ]]),
    });
    view
}

/// Renders a view at a fixed size and hands back the plain rows.
fn rows(view: &ViewState, width: u16, height: u16) -> Vec<String> {
    let mut tui = Tui::new(width, height);
    tui.render(view, closed(), &Band::default(), &Vec::new());
    tui.last_rows()
}

#[test]
fn a_grouped_clip_keeps_the_hue_of_its_kind() {
    for (kind, plain_colour, grouped_colour) in [
        (TrackKind::Video, Color::Cyan, Color::Indexed(30)),
        (TrackKind::Audio, Color::Green, Color::Indexed(28)),
    ] {
        let track = track_view(kind);
        let plain = clip_style(&track, &clip_view(false, false));
        let grouped = clip_style(&track, &clip_view(true, false));
        assert_eq!(plain.fg, Some(plain_colour));
        assert_eq!(grouped.fg, Some(grouped_colour));
    }
    // Video and audio stay apart once grouped.
    assert_ne!(
        clip_style(&track_view(TrackKind::Video), &clip_view(true, false)),
        clip_style(&track_view(TrackKind::Audio), &clip_view(true, false))
    );
}

#[test]
fn offline_beats_grouped() {
    let track = track_view(TrackKind::Video);
    let offline = clip_style(&track, &clip_view(true, true));
    assert_eq!(offline.fg, Some(Color::Red));
    assert_eq!(offline, clip_style(&track, &clip_view(false, true)));
}

#[test]
fn the_surface_gives_the_command_line_its_rows_back() {
    let full = surface(80, 10, 0, 0);
    assert_eq!(full.columns, 80 - u32::from(GUTTER));
    assert_eq!(full.rows, 8);
    assert_eq!(surface(80, 10, 2, 0).rows, 6);
    // The preview band takes its rows the same way the `:` line does.
    assert_eq!(surface(80, 10, 2, 3).rows, 3);
    // A terminal too small for a track still claims one.
    assert_eq!(surface(4, 1, 0, 0).rows, 1);
}

fn ruler_row(ticks: &[(u32, bool)], playhead: Option<u32>, labels: Vec<Label>) -> String {
    let mut cells = vec![RULE; 40];
    for (column, major) in ticks {
        cells[*column as usize] = if *major { '\u{253c}' } else { '\u{252c}' };
    }
    if let Some(column) = playhead {
        cells[column as usize] = '\u{25bc}';
    }
    label_ticks(&mut cells, &labels);
    cells.into_iter().collect()
}

fn numbers(at: &[(u32, &str)]) -> Vec<Label> {
    at.iter()
        .map(|(offset, text)| Label {
            offset: *offset,
            text: (*text).to_string(),
        })
        .collect()
}

#[test]
fn the_ruler_draws_the_numbers_beside_their_ticks() {
    let ticks = [(0, true), (10, true), (20, true)];
    let bare = ruler_row(&ticks, Some(10), Vec::new());
    assert!(!bare.contains('1'), "{bare}");

    let row = ruler_row(&ticks, Some(10), numbers(&[(1, "1"), (11, "0"), (21, "1")]));
    let cells: Vec<char> = row.chars().collect();
    assert_eq!(cells[0], '\u{253c}', "{row}");
    assert_eq!(
        cells[10], '\u{25bc}',
        "the playhead was written over: {row}"
    );
    assert_eq!((cells[1], cells[11], cells[21]), ('1', '0', '1'), "{row}");

    let row = ruler_row(&ticks, Some(10), numbers(&[(1, "0"), (11, "10"), (21, "20")]));
    let cells: Vec<char> = row.chars().collect();
    assert_eq!((cells[11], cells[12]), ('1', '0'), "{row}");
}

#[test]
fn render_every_row_is_exactly_as_wide_as_the_terminal() {
    let text = fit("abc", 6);
    assert_eq!(text, "abc   ");
    assert_eq!(fit("abcdefgh", 3), "abc");
    assert_eq!(justify("left", "1/2", 12), "left     1/2");
    for (name, view) in all_views() {
        for (w, h) in [(80u16, 12u16), (40, 8), (120, 24)] {
            for row in rows(&view, w, h) {
                assert_eq!(
                    row.chars().count(),
                    usize::from(w),
                    "{name} at {w}x{h} drew a ragged row: {row:?}"
                );
            }
        }
    }
}

#[test]
fn the_normal_view_snapshots() {
    let drawn = rows(&normal(), 60, 8).join("\n");
    assert_eq!(
        drawn,
        [
            "time     │▼──────┼┬───────┬─────┼─┬┼─────┼──────────────────\n",
            ">V1      ││a██████b██████████████  █c█████                  \n",
            " A1      ││music█████████████████                           \n",
            " V2      ││  █over██                                        \n",
            "-- NORMAL (V1) --                                      0/500",
        ]
        .concat(),
        "the terminal drew something the view state did not describe"
    );
}

#[test]
fn the_ruler_marks_the_playhead_and_the_clip_boundaries() {
    let drawn = rows(&normal(), 60, 8);
    let ruler = &drawn[0];
    let cells: Vec<char> = ruler.chars().skip(usize::from(GUTTER)).collect();
    assert!(cells.contains(&'\u{253c}'), "no major tick on the ruler");
    assert_eq!(
        cells.iter().filter(|c| **c == '\u{25bc}').count(),
        1,
        "the playhead is drawn exactly once"
    );
}

#[test]
fn a_selection_is_drawn_on_every_selected_track() {
    let view = visual_across_tracks();
    let tui = Tui::new(60, 10);
    let lines = tui.rows(&view, closed(), &Band::default(), &Vec::new());
    let reversed = lines
        .iter()
        .filter(|l| l.iter().any(|s| s.style.reversed))
        .count();
    assert_eq!(reversed, 2, "one selected lane per track in the block");
}

#[test]
fn only_the_covered_columns_of_a_clip_are_inverted() {
    let view = visual_across_tracks();
    let (first, last) = view
        .selection
        .as_ref()
        .and_then(|s| s.columns)
        .expect("the selection is on screen");
    let track = view.tracks[0].id;
    let tui = Tui::new(60, 10);
    let lines = tui.rows(&view, closed(), &Band::default(), &Vec::new());
    let row = view
        .tracks
        .iter()
        .position(|t| t.id == track)
        .expect("V1 is on screen");
    // Row 0 is the ruler, and every lane starts after the gutter.
    let line = &lines[row + 1];
    let mut column = 0u32;
    let mut cell = 0usize;
    let mut inverted = Vec::new();
    for span in line {
        for _ in span.text.chars() {
            if cell >= usize::from(GUTTER) {
                if span.style.reversed {
                    inverted.push(column);
                }
                column += 1;
            }
            cell += 1;
        }
    }
    assert!(!inverted.is_empty(), "the selection is not drawn at all");
    assert_eq!(
        (
            inverted.iter().copied().min().unwrap_or(0),
            inverted.iter().copied().max().unwrap_or(0)
        ),
        (first, last),
        "the inversion is not exactly the selection's columns"
    );
}

#[test]
fn an_audio_lane_draws_its_envelope_inside_the_clip() {
    let view = all_views().remove(2).1;
    let drawn = rows(&view, 60, 8);
    let audio = drawn
        .iter()
        .find(|r| r.starts_with(" A1"))
        .expect("the audio lane is drawn");
    let blocks = "\u{2581}\u{2582}\u{2583}\u{2584}\u{2585}\u{2586}\u{2587}";
    assert!(
        audio.chars().any(|c| blocks.contains(c)),
        "the envelope is flat: {audio:?}"
    );
}

#[test]
fn the_command_line_takes_a_row_from_the_tracks() {
    let view = normal();
    let mut tui = Tui::new(60, 8);
    tui.render(&view, closed(), &Band::default(), &Vec::new());
    let before = tui.surface().rows;

    let mut open = normal();
    open.command_line = Some(CommandLineView {
        buffer: "wri".into(),
        completions: vec!["write".into()],
    });
    assert_eq!(command_rows(&open), 2);
    tui.render(&open, closed(), &Band::default(), &Vec::new());
    assert_eq!(
        tui.surface().rows,
        before - 2,
        "the : line drew over a track"
    );
    let drawn = tui.last_rows();
    assert!(drawn[drawn.len() - 2].starts_with(":wri"));
    assert!(drawn[drawn.len() - 1].starts_with("write"));
}

#[test]
fn a_picker_takes_the_timeline_rows_and_gives_them_back() {
    let view = normal();
    let mut tui = Tui::new(60, 8);
    let picker = PickerView {
        intent: PickerIntent::Insert,
        query: String::new(),
        visible: vec![
            PickerEntry {
                label: "clips".into(),
                is_dir: true,
            },
            PickerEntry {
                label: "bunny.mkv".into(),
                is_dir: false,
            },
        ],
        selected: 0,
    };
    let overlay = Overlay {
        picker: Some(&picker),
        subtitle: None,
    };
    assert!(overlay.is_open());
    tui.render(&view, overlay, &Band::default(), &Vec::new());
    let drawn = tui.last_rows();
    assert!(drawn[1].starts_with("insert media at the playhead"));
    assert!(drawn.iter().any(|r| r.contains("clips/")));
    assert!(drawn.iter().any(|r| r.contains("bunny.mkv")));
    assert!(
        !drawn.iter().any(|r| r.starts_with(">V1")),
        "the timeline is still drawn under the picker"
    );

    tui.push(TermEvent::Key(TermKey::Escape, Modifiers::default()));
    assert_eq!(
        tui.step(true),
        Step::Ask(ModalKey::Escape, TermKey::Escape, Modifiers::default())
    );
    tui.render(&view, closed(), &Band::default(), &Vec::new());
    assert!(tui.last_rows()[1].starts_with(">V1"));
}

#[test]
fn a_subtitle_edit_shows_the_buffer_being_typed() {
    let view = normal();
    let mut tui = Tui::new(60, 8);
    let text = "hello\nthere".to_string();
    let overlay = Overlay {
        picker: None,
        subtitle: Some(&text),
    };
    tui.render(&view, overlay, &Band::default(), &Vec::new());
    let drawn = tui.last_rows();
    assert!(drawn[1].starts_with("subtitle text"));
    assert!(drawn[2].starts_with("hello"));
    assert!(drawn[3].starts_with("there"));
}

#[test]
fn a_message_and_a_pending_count_reach_the_status_line() {
    let mut view = normal();
    view.pending = "3d".into();
    view.message = Some(Message {
        text: "nothing to delete".into(),
        severity: Severity::Error,
    });
    let drawn = rows(&view, 60, 8);
    let status = drawn.last().unwrap();
    assert!(status.contains("nothing to delete"));
    assert!(status.contains("3d "), "the pending count is not shown");
}

#[test]
fn a_panel_is_drawn_where_it_was_placed() {
    let view = panel_view();
    let panel = &view.panels[0];
    let drawn = rows(&view, 60, 8);
    let at = usize::from(GUTTER) + panel.rect.column as usize;
    let part = |row: usize| -> String {
        drawn[row]
            .chars()
            .skip(at)
            .take(panel.rect.columns as usize)
            .collect()
    };
    let top = part(panel.rect.row as usize);
    assert!(
        top.starts_with('\u{250c}') && top.contains("which-key"),
        "the panel's frame and title are not at its placement: {top:?}"
    );
    let body = part(panel.rect.row as usize + 1);
    assert!(
        body.contains("go to the start"),
        "the panel body is missing: {body:?}"
    );
    for r in &drawn {
        assert_eq!(r.chars().count(), 60, "a panel made a row ragged: {r:?}");
    }
    let rows = panel_rows(panel);
    assert_eq!(rows.len(), 4);
    assert_ne!(role_style(PanelRole::Key), role_style(PanelRole::Warning));
}

#[test]
fn a_band_is_drawn_above_the_ruler() {
    let image = Image {
        width: 60,
        height: 4,
        rgb: vec![90; 60 * 4 * 3],
    };
    let band = encode(
        &image,
        Layout {
            columns: 60,
            rows: 2,
            protocol: Protocol::Blocks,
            cell: Cell::default(),
        },
    );
    let drawn = plain(&lines(&normal(), closed(), 60, 10, &band, &Vec::new()));
    assert!(drawn[0].starts_with('\u{2580}'));
    assert!(drawn[2].starts_with("time"));
    assert_eq!(drawn.len(), 7);
    assert!(drawn.iter().all(|r| r.chars().count() == 60));
}

fn press(tui: &mut Tui, c: char) {
    tui.push(TermEvent::Key(TermKey::Char(c), Modifiers::default()));
}

#[test]
fn keys_become_app_key_events() {
    let mut t = Tui::new(80, 12);
    press(&mut t, 'd');
    press(&mut t, 'w');
    assert_eq!(
        t.poll(),
        vec![
            Event::Key(TermKey::Char('d'), Modifiers::default()),
            Event::Key(TermKey::Char('w'), Modifiers::default())
        ]
    );
}

#[test]
fn resizing_reports_a_new_surface() {
    let mut t = Tui::new(80, 12);
    t.push(TermEvent::Resize {
        width: 40,
        height: 8,
    });
    let events = t.poll();
    assert!(matches!(events.as_slice(), [Event::Resize(_)]));
    assert_eq!(t.surface().columns, 40 - u32::from(GUTTER));
    assert_eq!(t.surface().rows, 6);
}

#[test]
fn the_command_line_owns_the_keyboard_while_it_is_open() {
    let mut t = Tui::new(80, 12);
    press(&mut t, 'w');
    press(&mut t, 'q');
    assert_eq!(
        (t.step(true), t.step(true)),
        (
            Step::Ask(ModalKey::Char('w'), TermKey::Char('w'), Modifiers::default()),
            Step::Ask(ModalKey::Char('q'), TermKey::Char('q'), Modifiers::default()),
        ),
        "keys leaked into the grammar"
    );
    assert!(t.take_events().is_empty());
    t.push(TermEvent::Key(TermKey::Enter, Modifiers::default()));
    assert_eq!(
        t.step(true),
        Step::Ask(ModalKey::Enter, TermKey::Enter, Modifiers::default())
    );
    press(&mut t, 'x');
    assert_eq!(
        t.poll(),
        vec![Event::Key(TermKey::Char('x'), Modifiers::default())]
    );
}

#[test]
fn the_picker_swallows_keys_until_it_closes() {
    let mut t = Tui::new(80, 12);
    press(&mut t, 'a');
    assert!(matches!(t.step(true), Step::Ask(ModalKey::Char('a'), _, _)));
    assert!(t.take_events().is_empty());
    t.push(TermEvent::Key(TermKey::Enter, Modifiers::default()));
    assert!(matches!(t.step(true), Step::Ask(ModalKey::Enter, _, _)));
    press(&mut t, 'a');
    assert_eq!(t.step(false), Step::Done);
    assert_eq!(t.take_events().len(), 1);
    assert_eq!(t.step(false), Step::Idle);
}

#[test]
fn a_chord_passes_an_open_picker() {
    let mut t = Tui::new(80, 12);
    let ctrl = Modifiers {
        ctrl: true,
        ..Modifiers::default()
    };
    t.push(TermEvent::Key(TermKey::Char('r'), ctrl));
    assert_eq!(t.step(true), Step::Done);
    assert_eq!(t.take_events(), vec![Event::Key(TermKey::Char('r'), ctrl)]);
    assert_eq!(modal_key(TermKey::Other), None);
}

#[test]
fn a_click_reports_its_column_and_lane() {
    let mut t = Tui::new(80, 12);
    t.push(TermEvent::Click {
        column: GUTTER + 7,
        row: 2,
    });
    assert_eq!(
        t.poll(),
        vec![Event::Click {
            column: 7,
            row: Some(1)
        }]
    );
    t.push(TermEvent::Click {
        column: GUTTER + 3,
        row: 0,
    });
    assert_eq!(
        t.poll(),
        vec![Event::Click {
            column: 3,
            row: None
        }],
        "a click on the ruler seeks without changing track focus"
    );
    // The gutter is not the timeline.
    t.push(TermEvent::Click { column: 1, row: 2 });
    assert!(t.poll().is_empty());
}

#[test]
fn losing_the_terminal_quits() {
    let mut t = Tui::new(80, 12);
    t.push(TermEvent::Closed);
    assert_eq!(t.poll(), vec![Event::Quit]);
    assert!(t.wants_quit());
}

#[test]
fn the_tui_translates_a_whole_session_without_losing_a_key() {
    let script = "lljs";
    let mut tui = Tui::new(80, 12);
    for c in script.chars() {
        tui.push(TermEvent::Key(TermKey::Char(c), Modifiers::default()));
    }
    assert_eq!(tui.poll().len(), script.len());
}

#[test]
fn key_releases_are_not_key_presses() {
    let release = KeyEvent {
        code: KeyCode::Char('d'),
        kind: KeyEventKind::Release,
        modifiers: Modifiers::default(),
    };
    assert_eq!(from_crossterm(&release), None);
    let press = KeyEvent {
        code: KeyCode::Char('d'),
        kind: KeyEventKind::Press,
        modifiers: Modifiers::default(),
    };
    assert_eq!(
        from_crossterm(&press),
        Some((TermKey::Char('d'), Modifiers::default()))
    );
    let held = KeyEvent {
        code: KeyCode::BackTab,
        kind: KeyEventKind::Repeat,
        modifiers: Modifiers::default(),
    };
    assert_eq!(from_crossterm(&held).map(|k| k.0), Some(TermKey::Tab));
}

#[test]
fn neighbouring_cells_of_one_style_share_a_span() {
    let red = Style::color(Color::Red);
    let cells = vec![('a', red), ('b', red), ('c', Style::default())];
    let spans = group(&cells);
    assert_eq!(
        spans,
        vec![styled("ab".into(), red), raw("c".into())]
    );
    assert_eq!(flatten(&spans), cells);
    let mut row = Vec::new();
    paint_text(&mut row, "xy", red.bold().reversed());
    assert_eq!(row.len(), 2);
    assert!(row[1].1.bold && row[1].1.reversed);
}

#[test]
fn a_patch_replaces_what_is_under_it() {
    let line: Vec<Span> = vec![raw("0123456789".into())];
    let out = splice(&line, 3, &vec![raw("abc".into())], 10);
    assert_eq!(plain(&vec![out]), vec!["012abc6789".to_string()]);
    let cut = splice(&line, 8, &vec![raw("abc".into())], 10);
    assert_eq!(plain(&vec![cut])[0].chars().count(), 10);
}

#[test]
fn a_lane_says_what_it_is() {
    let mut t = track_view(TrackKind::Video);
    assert_eq!(gutter_label(&t).trim(), "V1");
    t.focused = true;
    assert!(gutter_label(&t).starts_with(">V1"));
    assert_eq!(gutter_text("V1").chars().count(), usize::from(GUTTER));
    assert_eq!(fit_to("abc", 2), "ab");
    assert_ne!(level_char(0), level_char(255));
}
