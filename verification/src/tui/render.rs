//! One screen: the preview, the ruler, the lanes, the panels over them, the
//! status and the command line.
use vstd::prelude::*;
use vstd::string::*;

use crate::text::decimal;
use crate::text::parts;
use crate::text::push_decimal;
use crate::text::split;
use crate::text::texts_view;
use crate::tui::lane::GUTTER;
use crate::tui::lane::fit;
use crate::tui::lane::fit_to;
use crate::tui::lane::fitted;
use crate::tui::lane::gutter;
use crate::tui::lane::labelled;
use crate::tui::lane::lane;
use crate::tui::lane::lane_cells;
use crate::tui::lane::lane_line;
use crate::tui::lane::lane_look;
use crate::tui::lane::lane_name;
use crate::tui::lane::ruler;
use crate::tui::lane::ruler_line;
use crate::tui::lane::tick_cells;
use crate::tui::panel::overlay_panels;
use crate::tui::panel::spliced_cells;
use crate::tui::panel::with_panels;
use crate::tui::preview::Band;
use crate::tui::preview::BandView;
use crate::tui::preview::lines_view;
use crate::tui::style::Color;
use crate::tui::style::Span;
use crate::tui::style::SpanView;
use crate::tui::style::Style;
use crate::tui::style::cells_of;
use crate::tui::style::chars_in;
use crate::tui::style::coloured;
use crate::tui::style::flatten;
use crate::tui::style::raw;
use crate::tui::style::runs;
use crate::tui::style::runs_draw_their_cells;
use crate::tui::style::spans_view;
use crate::tui::style::styled;
use crate::tui::style::unstyled;
use crate::tui::view::CommandLineView;
use crate::tui::view::Label;
use crate::tui::view::Overlay;
use crate::tui::view::PanelView;
use crate::tui::view::PickerIntent;
use crate::tui::view::PickerView;
use crate::tui::view::Severity;
use crate::tui::view::TrackView;
use crate::tui::view::ViewState;

verus! {

/// The rows of the ruler and the status.
pub const CHROME_ROWS: u16 = 2;

/// The area that a terminal offers to the timeline.
#[derive(Clone, Copy, Debug, PartialEq, Eq, Structural)]
pub struct Surface {
    pub columns: u32,
    pub rows: usize,
    /// A terminal shows no pictures of clips.
    pub thumbnail_columns: u32,
    /// The columns that a panel may cover.
    pub cell_columns: u32,
    /// The rows that a panel may cover.
    pub cell_rows: u32,
}

/// What is left, but no less than nothing.
pub open spec fn left_of(a: int, b: int) -> int {
    if a < b {
        0
    } else {
        a - b
    }
}

/// At least one.
pub open spec fn some(n: int) -> int {
    if n < 1 {
        1
    } else {
        n
    }
}

/// The rows between the ruler and the status.
pub open spec fn lane_rows(height: int, command_rows: int, preview_rows: int) -> int {
    some(height - CHROME_ROWS - command_rows - preview_rows)
}

/// The area of a terminal: the preview, the ruler, the status and the command
/// line take their rows from it.
pub fn surface(width: u16, height: u16, command_rows: u16, preview_rows: u16) -> (s: Surface)
    ensures
        s.columns == left_of(width as int, GUTTER as int),
        s.rows == lane_rows(height as int, command_rows as int, preview_rows as int),
        s.thumbnail_columns == 0,
        s.cell_columns == s.columns,
        s.cell_rows == some(height - 1 - command_rows),
{
    let columns: u32 = if width < GUTTER {
        0
    } else {
        (width - GUTTER) as u32
    };
    Surface {
        columns,
        rows: free_rows(height, command_rows, preview_rows) as usize,
        thumbnail_columns: 0,
        cell_columns: columns,
        cell_rows: panel_room(height, command_rows) as u32,
    }
}

fn free_rows(height: u16, command_rows: u16, preview_rows: u16) -> (rows: u16)
    ensures
        rows == lane_rows(height as int, command_rows as int, preview_rows as int),
{
    let rows = height.saturating_sub(CHROME_ROWS).saturating_sub(command_rows).saturating_sub(
        preview_rows,
    );
    if rows < 1 {
        1
    } else {
        rows
    }
}

fn panel_room(height: u16, command_rows: u16) -> (rows: u16)
    ensures
        rows == some(height - 1 - command_rows),
{
    let rows = height.saturating_sub(1).saturating_sub(command_rows);
    if rows < 1 {
        1
    } else {
        rows
    }
}

/// The rows that the command line wants: one while it is open, and one for its
/// suggestions.
pub open spec fn command_height(c: Option<CommandLineView>) -> int {
    match c {
        None => 0,
        Some(l) => if l.completions@.len() == 0 {
            1
        } else {
            2
        },
    }
}

pub fn command_rows(view: &ViewState) -> (n: u16)
    ensures
        n == command_height(view.command_line),
{
    match &view.command_line {
        None => 0,
        Some(c) => if c.completions.len() == 0 {
            1
        } else {
            2
        },
    }
}

/// Two texts on one row, the right one at the edge; the left one is cut first.
pub open spec fn justified(left: Seq<char>, right: Seq<char>, width: int) -> Seq<char> {
    if right.len() >= width {
        fitted(right, width)
    } else {
        fitted(left, width - right.len() - 1).push(' ') + right
    }
}

pub fn justify(left: &str, right: &str, width: u16) -> (s: String)
    ensures
        s@ == justified(left@, right@, width as int),
        s@.len() == width,
{
    let n: usize = right.unicode_len();
    if n >= width as usize {
        return fit(right, width);
    }
    let mut s = fit_to(left, width as usize - n - 1);
    s.push(' ');
    s.append(right);
    s
}

/// What the status says on the left.
pub open spec fn status_left(view: ViewState) -> Seq<char> {
    view.mode_line@ + (match view.recording {
        Some(r) => " recording @"@ + seq![r],
        None => Seq::empty(),
    }) + (match view.job {
        Some(j) => " ["@ + j.label@ + " "@ + decimal(j.percent as nat) + "%]"@,
        None => Seq::empty(),
    }) + (match view.message {
        Some(m) => seq![' '] + m.text@,
        None => Seq::empty(),
    })
}

/// What the status says on the right.
pub open spec fn status_right(view: ViewState) -> Seq<char> {
    (if view.pending@.len() == 0 {
        Seq::empty()
    } else {
        view.pending@ + " "@
    }) + decimal(view.playhead.frame.0 as nat) + "/"@ + decimal(view.duration.0 as nat)
}

/// How the status is drawn.
pub open spec fn status_look(view: ViewState) -> Style {
    coloured(
        match view.message {
            Some(m) => match m.severity {
                Severity::Error => Color::Red,
                Severity::Warning => Color::Yellow,
                Severity::Info => Color::White,
            },
            None => Color::White,
        },
    )
}

/// The status row.
pub open spec fn status_line(view: ViewState, width: int) -> Seq<SpanView> {
    seq![
        SpanView {
            text: justified(status_left(view), status_right(view), width),
            style: status_look(view),
        },
    ]
}

fn one(span: Span) -> (line: Vec<Span>)
    ensures
        spans_view(line@) == seq![span@],
{
    let mut line: Vec<Span> = Vec::new();
    line.push(span);
    assert(spans_view(line@) =~= seq![span@]);
    line
}

pub fn status(view: &ViewState, width: u16) -> (line: Vec<Span>)
    ensures
        spans_view(line@) == status_line(*view, width as int),
{
    let mut left = view.mode_line.clone();
    if let Some(r) = view.recording {
        left.append(" recording @");
        left.push(r);
    }
    if let Some(job) = &view.job {
        left.append(" [");
        left.append(job.label.as_str());
        left.append(" ");
        push_decimal(&mut left, job.percent);
        left.append("%]");
    }
    if let Some(m) = &view.message {
        left.push(' ');
        left.append(m.text.as_str());
    }
    assert(left@ =~= status_left(*view));
    let mut right = String::new();
    if view.pending.as_str().unicode_len() > 0 {
        right.append(view.pending.as_str());
        right.append(" ");
    }
    push_decimal(&mut right, view.playhead.frame.0);
    right.append("/");
    push_decimal(&mut right, view.duration.0);
    assert(right@ =~= status_right(*view));
    let style = match &view.message {
        Some(m) => match m.severity {
            Severity::Error => Style::color(Color::Red),
            Severity::Warning => Style::color(Color::Yellow),
            Severity::Info => Style::color(Color::White),
        },
        None => Style::color(Color::White),
    };
    one(styled(justify(left.as_str(), right.as_str(), width), style))
}

/// Texts with a space between them.
pub open spec fn spaced(v: Seq<Seq<char>>) -> Seq<char>
    decreases v.len(),
{
    if v.len() == 0 {
        Seq::empty()
    } else if v.len() == 1 {
        v[0]
    } else {
        spaced(v.drop_last()) + seq![' '] + v.last()
    }
}

fn join_spaced(v: &Vec<String>) -> (s: String)
    ensures
        s@ == spaced(texts_view(v@)),
{
    let ghost all = texts_view(v@);
    let n: usize = v.len();
    let mut s = String::new();
    let mut i: usize = 0;
    assert(all.take(0) =~= Seq::<Seq<char>>::empty());
    assert(s@ =~= spaced(all.take(0)));
    while i < n
        invariant
            i <= n == v@.len(),
            all == texts_view(v@),
            s@ == spaced(all.take(i as int)),
        decreases n - i,
    {
        proof {
            let next = all.take(i as int + 1);
            assert(next.drop_last() =~= all.take(i as int));
            assert(next.last() == v@[i as int]@);
        }
        if i > 0 {
            s.push(' ');
        }
        let ghost before = s@;
        s.append(v[i].as_str());
        assert(s@ =~= spaced(all.take(i as int + 1)));
        i = i + 1;
    }
    assert(all.take(i as int) =~= all);
    s
}

/// The rows of the command line.
pub open spec fn command_lines(c: Option<CommandLineView>, width: int) -> Seq<Seq<SpanView>> {
    match c {
        None => Seq::empty(),
        Some(l) => {
            let typed = seq![
                SpanView { text: fitted(seq![':'] + l.buffer@, width), style: unstyled() },
            ];
            if l.completions@.len() == 0 {
                seq![typed]
            } else {
                seq![
                    typed,
                    seq![
                        SpanView {
                            text: fitted(spaced(texts_view(l.completions@)), width),
                            style: coloured(Color::DarkGray),
                        },
                    ],
                ]
            }
        },
    }
}

pub fn command_line(view: &ViewState, width: u16) -> (lines: Vec<Vec<Span>>)
    ensures
        lines_view(lines@) == command_lines(view.command_line, width as int),
{
    let mut out: Vec<Vec<Span>> = Vec::new();
    if let Some(cmd) = &view.command_line {
        let mut text = String::new();
        text.push(':');
        text.append(cmd.buffer.as_str());
        assert(text@ =~= seq![':'] + cmd.buffer@);
        out.push(one(raw(fit(text.as_str(), width))));
        if cmd.completions.len() > 0 {
            let list = join_spaced(&cmd.completions);
            out.push(one(styled(fit(list.as_str(), width), Style::color(Color::DarkGray))));
        }
    }
    assert(lines_view(out@) =~= command_lines(view.command_line, width as int));
    out
}

/// The title of the list of files.
pub open spec fn picker_title(intent: PickerIntent) -> Seq<char> {
    match intent {
        PickerIntent::Insert => "insert media at the playhead"@,
        PickerIntent::Append => "append media after this clip"@,
        PickerIntent::Replace => "replace this clip with"@,
    }
}

/// The first entry that is shown: the selected one is always on screen.
pub open spec fn first_shown(selected: int, rows: int) -> int {
    left_of(selected, some(rows - 1) - 1)
}

/// The row of an entry.
pub open spec fn entry_line(picker: PickerView, i: int, width: int) -> Seq<SpanView> {
    let e = picker.visible@[i];
    let chosen = i == picker.selected;
    seq![
        SpanView {
            text: fitted(
                seq![
                    if chosen {
                        '>'
                    } else {
                        ' '
                    },
                    ' ',
                ] + e.label@ + (if e.is_dir {
                    seq!['/']
                } else {
                    Seq::empty()
                }),
                width,
            ),
            style: if chosen {
                Style { reversed: true, ..coloured(Color::White) }
            } else if e.is_dir {
                coloured(Color::Blue)
            } else {
                coloured(Color::Gray)
            },
        },
    ]
}

/// How many entries are shown.
pub open spec fn shown_count(picker: PickerView, rows: int) -> int {
    let first = first_shown(picker.selected as int, rows);
    let left = left_of(picker.visible@.len() as int, first);
    if left < some(rows - 1) {
        left
    } else {
        some(rows - 1)
    }
}

/// The heading of what is open over the timeline.
pub open spec fn heading(text: Seq<char>, width: int) -> Seq<SpanView> {
    seq![
        SpanView {
            text: fitted(text, width),
            style: Style { bold: true, ..coloured(Color::White) },
        },
    ]
}

/// The rows of the list of files, as many as it has.
pub open spec fn picker_lines(picker: PickerView, width: int, rows: int) -> Seq<Seq<SpanView>> {
    let first = first_shown(picker.selected as int, rows);
    seq![heading(picker_title(picker.intent) + ": "@ + picker.query@, width)] + (
    if picker.visible@.len() == 0 {
        seq![
            seq![
                SpanView {
                    text: fitted("no media here"@, width),
                    style: coloured(Color::DarkGray),
                },
            ],
        ]
    } else {
        Seq::empty()
    }) + Seq::new(
        shown_count(picker, rows) as nat,
        |i: int| entry_line(picker, first + i, width),
    )
}

/// The rows of a subtitle that is being typed, as many as it has.
pub open spec fn subtitle_lines(text: Seq<char>, width: int) -> Seq<Seq<SpanView>> {
    let lines = parts(text, '\n');
    seq![heading("subtitle text - Esc to commit"@, width)] + Seq::new(
        lines.len(),
        |i: int| seq![SpanView { text: fitted(lines[i], width), style: unstyled() }],
    )
}

/// At most the first `n`.
pub open spec fn at_most<T>(s: Seq<T>, n: int) -> Seq<T> {
    if s.len() > n {
        s.take(n)
    } else {
        s
    }
}

/// What is open over the timeline, in the rows that the lanes had.
pub open spec fn modal_lines(
    picker: Option<PickerView>,
    subtitle: Option<Seq<char>>,
    width: int,
    rows: int,
) -> Seq<Seq<SpanView>> {
    at_most(
        match picker {
            Some(p) => picker_lines(p, width, rows),
            None => match subtitle {
                Some(t) => subtitle_lines(t, width),
                None => Seq::empty(),
            },
        },
        rows,
    )
}

/// The selected entry is on screen, however long the list is.
pub proof fn the_selected_entry_is_shown(picker: PickerView, rows: int)
    requires
        picker.selected < picker.visible@.len(),
        rows >= 2,
    ensures
        ({
            let first = first_shown(picker.selected as int, rows);
            &&& first <= picker.selected < first + shown_count(picker, rows)
            &&& 1 + shown_count(picker, rows) <= rows
        }),
{
}

fn entry_row(picker: &PickerView, i: usize, width: u16) -> (line: Vec<Span>)
    requires
        i < picker.visible@.len(),
    ensures
        spans_view(line@) == entry_line(*picker, i as int, width as int),
{
    let entry = &picker.visible[i];
    let chosen = i == picker.selected;
    let mut text = String::new();
    text.push(
        if chosen {
            '>'
        } else {
            ' '
        },
    );
    text.push(' ');
    text.append(entry.label.as_str());
    if entry.is_dir {
        text.push('/');
    }
    assert(text@ =~= seq![
        if chosen {
            '>'
        } else {
            ' '
        },
        ' ',
    ] + entry.label@ + (if entry.is_dir {
        seq!['/']
    } else {
        Seq::empty()
    }));
    let style = if chosen {
        Style::color(Color::White).reversed()
    } else if entry.is_dir {
        Style::color(Color::Blue)
    } else {
        Style::color(Color::Gray)
    };
    one(styled(fit(text.as_str(), width), style))
}

fn picker_rows(picker: &PickerView, width: u16, rows: u16) -> (out: Vec<Vec<Span>>)
    ensures
        lines_view(out@) == picker_lines(*picker, width as int, rows as int),
{
    let ghost goal = picker_lines(*picker, width as int, rows as int);
    let mut out: Vec<Vec<Span>> = Vec::new();
    let mut title = match picker.intent {
        PickerIntent::Insert => "insert media at the playhead".to_owned(),
        PickerIntent::Append => "append media after this clip".to_owned(),
        PickerIntent::Replace => "replace this clip with".to_owned(),
    };
    title.append(": ");
    title.append(picker.query.as_str());
    assert(title@ =~= picker_title(picker.intent) + ": "@ + picker.query@);
    out.push(one(styled(fit(title.as_str(), width), Style::color(Color::White).bold())));
    let n: usize = picker.visible.len();
    if n == 0 {
        out.push(one(styled(fit("no media here", width), Style::color(Color::DarkGray))));
    }
    let room: usize = if rows <= 2 {
        1
    } else {
        rows as usize - 1
    };
    let first: usize = if picker.selected < room - 1 {
        0
    } else {
        picker.selected - (room - 1)
    };
    let left: usize = if n < first {
        0
    } else {
        n - first
    };
    let count: usize = if left < room {
        left
    } else {
        room
    };
    assert(first == first_shown(picker.selected as int, rows as int));
    assert(count == shown_count(*picker, rows as int));
    let ghost head = lines_view(out@);
    let mut i: usize = 0;
    while i < count
        invariant
            i <= count,
            count == shown_count(*picker, rows as int),
            first == first_shown(picker.selected as int, rows as int),
            count > 0 ==> first + count <= picker.visible@.len(),
            lines_view(out@) =~= head + Seq::new(
                i as nat,
                |k: int| entry_line(*picker, first + k, width as int),
            ),
        decreases count - i,
    {
        let ghost before = lines_view(out@);
        let row = entry_row(picker, first + i, width);
        out.push(row);
        assert(lines_view(out@) =~= before.push(entry_line(*picker, first + i, width as int)));
        i = i + 1;
    }
    assert(lines_view(out@) =~= goal);
    out
}

fn subtitle_rows(text: &String, width: u16) -> (out: Vec<Vec<Span>>)
    ensures
        lines_view(out@) == subtitle_lines(text@, width as int),
{
    let ghost goal = subtitle_lines(text@, width as int);
    let mut out: Vec<Vec<Span>> = Vec::new();
    out.push(
        one(
            styled(
                fit("subtitle text - Esc to commit", width),
                Style::color(Color::White).bold(),
            ),
        ),
    );
    let pieces = split(text.as_str(), '\n');
    let ghost lines = texts_view(pieces@);
    let n: usize = pieces.len();
    let mut i: usize = 0;
    assert(lines_view(out@) =~= goal.take(1));
    while i < n
        invariant
            i <= n == pieces@.len(),
            lines == texts_view(pieces@),
            lines == parts(text@, '\n'),
            goal == subtitle_lines(text@, width as int),
            lines_view(out@) =~= goal.take(1 + i),
        decreases n - i,
    {
        let ghost before = lines_view(out@);
        assert(lines[i as int] == pieces@[i as int]@);
        let row = one(raw(fit(pieces[i].as_str(), width)));
        assert(spans_view(row@) == goal[1 + i]);
        out.push(row);
        assert(lines_view(out@) =~= before.push(goal[1 + i]));
        i = i + 1;
    }
    assert(lines_view(out@) =~= goal);
    out
}

/// The contents of what is open.
pub open spec fn picker_in(overlay: Overlay) -> Option<PickerView> {
    match overlay.picker {
        Some(p) => Some(*p),
        None => None,
    }
}

/// The contents of what is being typed.
pub open spec fn subtitle_in(overlay: Overlay) -> Option<Seq<char>> {
    match overlay.subtitle {
        Some(t) => Some(t@),
        None => None,
    }
}

/// What is open over the timeline.
pub fn modal(overlay: Overlay, width: u16, rows: u16) -> (out: Vec<Vec<Span>>)
    ensures
        lines_view(out@) == modal_lines(
            picker_in(overlay),
            subtitle_in(overlay),
            width as int,
            rows as int,
        ),
{
    let mut out = match overlay.picker {
        Some(picker) => picker_rows(picker, width, rows),
        None => match overlay.subtitle {
            Some(text) => subtitle_rows(text, width),
            None => {
                let none: Vec<Vec<Span>> = Vec::new();
                assert(lines_view(none@) =~= Seq::<Seq<SpanView>>::empty());
                none
            },
        },
    };
    let ghost all = out@;
    out.truncate(rows as usize);
    assert(lines_view(out@) =~= at_most(lines_view(all), rows as int));
    out
}

/// A row with nothing on it.
pub open spec fn blank_line(width: int) -> Seq<SpanView> {
    seq![SpanView { text: fitted(Seq::empty(), width), style: unstyled() }]
}

/// The rows of the preview; those that it leaves open are blank.
pub open spec fn band_lines(band: BandView, width: int) -> Seq<Seq<SpanView>> {
    Seq::new(
        band.rows as nat,
        |i: int|
            if i < band.cells.len() {
                band.cells[i]
            } else {
                blank_line(width)
            },
    )
}

/// The lanes.
pub open spec fn lanes(view: ViewState, columns: int) -> Seq<Seq<SpanView>> {
    Seq::new(view.tracks@.len(), |i: int| lane_line(view, view.tracks@[i], columns))
}

/// The last row that a panel reaches, of the first `n`.
pub open spec fn lowest_row(panels: Seq<PanelView>, n: int) -> int
    decreases n,
{
    if n <= 0 {
        0
    } else {
        let before = lowest_row(panels, n - 1);
        let reach = panels[n - 1].rect.row + panels[n - 1].rect.rows;
        let end = if reach > u32::MAX {
            u32::MAX as int
        } else {
            reach
        };
        if end > before {
            end
        } else {
            before
        }
    }
}

/// The rows that a screen grows to, so that no panel is cut off by a short
/// timeline.
pub open spec fn wanted_rows(view: ViewState, height: int) -> int {
    let reach = lowest_row(view.panels@, view.panels@.len() as int);
    let room = some(height - 1 - command_height(view.command_line));
    if reach < room {
        reach
    } else {
        room
    }
}

/// Rows with blank ones after them, up to `n`.
pub open spec fn grown(lines: Seq<Seq<SpanView>>, n: int, width: int) -> Seq<Seq<SpanView>> {
    lines + Seq::new(left_of(n, lines.len() as int) as nat, |i: int| blank_line(width))
}

/// The rows above the panels: the preview, the ruler, and the lanes or what is
/// open over them.
pub open spec fn timeline_lines(
    view: ViewState,
    picker: Option<PickerView>,
    subtitle: Option<Seq<char>>,
    width: int,
    height: int,
    band: BandView,
    labels: Seq<Label>,
) -> Seq<Seq<SpanView>> {
    let columns = left_of(width, GUTTER as int);
    band_lines(band, width).push(ruler_line(view, columns, labels)) + (if picker is Some
        || subtitle is Some {
        modal_lines(
            picker,
            subtitle,
            width,
            lane_rows(height, command_height(view.command_line), band.rows as int),
        )
    } else {
        lanes(view, columns)
    })
}

/// One screen, its top row first.
pub open spec fn screen(
    view: ViewState,
    picker: Option<PickerView>,
    subtitle: Option<Seq<char>>,
    width: int,
    height: int,
    band: BandView,
    labels: Seq<Label>,
) -> Seq<Seq<SpanView>> {
    let under = timeline_lines(view, picker, subtitle, width, height, band, labels);
    with_panels(
        grown(under, wanted_rows(view, height), width),
        view.panels@,
        width,
        view.panels@.len() as int,
    ).push(status_line(view, width)) + command_lines(view.command_line, width)
}

fn blank_row(width: u16) -> (line: Vec<Span>)
    ensures
        spans_view(line@) == blank_line(width as int),
{
    let text = fit("", width);
    assert(""@ =~= Seq::<char>::empty()) by {
        reveal_strlit("");
    }
    one(raw(text))
}

fn copy_line(line: &Vec<Span>) -> (c: Vec<Span>)
    ensures
        spans_view(c@) == spans_view(line@),
{
    let mut c: Vec<Span> = Vec::new();
    let n: usize = line.len();
    let mut i: usize = 0;
    while i < n
        invariant
            i <= n == line@.len(),
            spans_view(c@) =~= spans_view(line@).take(i as int),
        decreases n - i,
    {
        let ghost before = spans_view(c@);
        let s = line[i].clone();
        c.push(s);
        assert(spans_view(c@) =~= before.push(spans_view(line@)[i as int]));
        i = i + 1;
    }
    assert(spans_view(c@) =~= spans_view(line@));
    c
}

fn timeline_rows(
    view: &ViewState,
    overlay: Overlay,
    width: u16,
    height: u16,
    band: &Band,
    labels: &Vec<Label>,
) -> (out: Vec<Vec<Span>>)
    ensures
        lines_view(out@) == timeline_lines(
            *view,
            picker_in(overlay),
            subtitle_in(overlay),
            width as int,
            height as int,
            band@,
            labels@,
        ),
{
    let columns: u16 = width.saturating_sub(GUTTER);
    let ghost top = band_lines(band@, width as int);
    let mut out: Vec<Vec<Span>> = Vec::new();
    let cells: usize = band.cells.len();
    let mut row: u16 = 0;
    while row < band.rows
        invariant
            row <= band.rows,
            cells == band.cells@.len(),
            top == band_lines(band@, width as int),
            lines_view(out@) =~= top.take(row as int),
        decreases band.rows - row,
    {
        let ghost before = lines_view(out@);
        let line = if (row as usize) < cells {
            assert(band@.cells[row as int] == spans_view(band.cells@[row as int]@));
            copy_line(&band.cells[row as usize])
        } else {
            blank_row(width)
        };
        assert(spans_view(line@) == top[row as int]);
        out.push(line);
        assert(lines_view(out@) =~= before.push(top[row as int]));
        row = row + 1;
    }
    assert(lines_view(out@) =~= top);
    let line = ruler(view, columns, labels);
    out.push(line);
    let ghost head = lines_view(out@);
    assert(head =~= top.push(ruler_line(*view, columns as int, labels@)));
    if overlay.is_open() {
        let rows = free_rows(height, command_rows(view), band.rows);
        let mut rest = modal(overlay, width, rows);
        let ghost tail = lines_view(rest@);
        out.append(&mut rest);
        assert(lines_view(out@) =~= head + tail);
    } else {
        let ghost all = lanes(*view, columns as int);
        let n: usize = view.tracks.len();
        let mut i: usize = 0;
        while i < n
            invariant
                i <= n == view.tracks@.len(),
                all == lanes(*view, columns as int),
                lines_view(out@) =~= head + all.take(i as int),
            decreases n - i,
        {
            let ghost before = lines_view(out@);
            let line = lane(view, &view.tracks[i], columns);
            assert(spans_view(line@) == all[i as int]);
            out.push(line);
            assert(lines_view(out@) =~= before.push(all[i as int]));
            i = i + 1;
        }
        assert(lines_view(out@) =~= head + all);
    }
    out
}

fn rows_wanted(view: &ViewState, height: u16) -> (n: u32)
    ensures
        n == wanted_rows(*view, height as int),
{
    let mut lowest: u32 = 0;
    let n: usize = view.panels.len();
    let mut i: usize = 0;
    while i < n
        invariant
            i <= n == view.panels@.len(),
            lowest == lowest_row(view.panels@, i as int),
        decreases n - i,
    {
        let rect = view.panels[i].rect;
        let end = rect.row.saturating_add(rect.rows);
        if end > lowest {
            lowest = end;
        }
        i = i + 1;
    }
    let room = panel_room(height, command_rows(view)) as u32;
    if lowest < room {
        lowest
    } else {
        room
    }
}

/// One screen, its top row first.
pub fn lines(
    view: &ViewState,
    overlay: Overlay,
    width: u16,
    height: u16,
    band: &Band,
    labels: &Vec<Label>,
) -> (out: Vec<Vec<Span>>)
    ensures
        lines_view(out@) == screen(
            *view,
            picker_in(overlay),
            subtitle_in(overlay),
            width as int,
            height as int,
            band@,
            labels@,
        ),
{
    let mut out = timeline_rows(view, overlay, width, height, band, labels);
    let wanted: u32 = rows_wanted(view, height);
    let ghost under = lines_view(out@);
    let mut count: usize = out.len();
    while (count as u64) < wanted as u64
        invariant
            count == out@.len(),
            wanted == wanted_rows(*view, height as int),
            count <= under.len() || count <= wanted,
            lines_view(out@) =~= under + Seq::new(
                (count - under.len()) as nat,
                |i: int| blank_line(width as int),
            ),
            count >= under.len(),
        decreases wanted - count,
    {
        let ghost before = lines_view(out@);
        let line = blank_row(width);
        out.push(line);
        assert(lines_view(out@) =~= before.push(blank_line(width as int)));
        count = count + 1;
    }
    assert(lines_view(out@) =~= grown(under, wanted as int, width as int));
    overlay_panels(&mut out, &view.panels, width);
    let ghost over = lines_view(out@);
    let line = status(view, width);
    out.push(line);
    assert(lines_view(out@) =~= over.push(status_line(*view, width as int)));
    let mut rest = command_line(view, width);
    let ghost head = lines_view(out@);
    let ghost tail = lines_view(rest@);
    out.append(&mut rest);
    assert(lines_view(out@) =~= head + tail);
    out
}

/// Rows as plain text.
pub fn plain(lines: &Vec<Vec<Span>>) -> (out: Vec<String>)
    ensures
        out@.len() == lines@.len(),
        forall|i: int|
            0 <= i < lines@.len() ==> (#[trigger] out@[i])@ == chars_in(
                cells_of(spans_view(lines@[i]@)),
            ),
{
    let mut out: Vec<String> = Vec::new();
    let n: usize = lines.len();
    let mut i: usize = 0;
    while i < n
        invariant
            i <= n == lines@.len(),
            out@.len() == i,
            forall|k: int|
                0 <= k < i ==> (#[trigger] out@[k])@ == chars_in(
                    cells_of(spans_view(lines@[k]@)),
                ),
        decreases n - i,
    {
        let cells = flatten(&lines[i]);
        let mut text = String::new();
        let m: usize = cells.len();
        let mut k: usize = 0;
        while k < m
            invariant
                k <= m == cells@.len(),
                text@ =~= chars_in(cells@).take(k as int),
            decreases m - k,
        {
            text.push(cells[k].0);
            k = k + 1;
        }
        assert(text@ =~= chars_in(cells@));
        out.push(text);
        i = i + 1;
    }
    out
}

/// How wide a row is.
pub open spec fn width_of(line: Seq<SpanView>) -> int {
    cells_of(line).len() as int
}

proof fn lemma_one_span(text: Seq<char>, style: Style)
    ensures
        width_of(seq![SpanView { text, style }]) == text.len(),
{
    let line = seq![SpanView { text, style }];
    assert(line.drop_last() =~= Seq::<SpanView>::empty());
    assert(line.last() == (SpanView { text, style }));
    reveal_with_fuel(cells_of, 2);
}

proof fn lemma_cells_concat(a: Seq<SpanView>, b: Seq<SpanView>)
    ensures
        cells_of(a + b) == cells_of(a) + cells_of(b),
    decreases b.len(),
{
    if b.len() == 0 {
        assert(a + b =~= a);
        assert(cells_of(a) + cells_of(b) =~= cells_of(a));
    } else {
        assert((a + b).drop_last() =~= a + b.drop_last());
        lemma_cells_concat(a, b.drop_last());
        assert(cells_of(a + b) =~= cells_of(a) + cells_of(b));
    }
}

proof fn lemma_ruler_width(view: ViewState, width: int, labels: Seq<Label>)
    requires
        width >= 0,
    ensures
        width_of(ruler_line(view, width, labels)) == GUTTER + width,
{
    let line = ruler_line(view, width, labels);
    let a = seq![line[0]];
    let b = seq![line[1]];
    assert(line =~= a + b);
    lemma_cells_concat(a, b);
    lemma_one_span(line[0].text, line[0].style);
    lemma_one_span(line[1].text, line[1].style);
    lemma_tick_width(view.ticks@, width, view.ticks@.len() as int);
    let ticks = tick_cells(view.ticks@, width, view.ticks@.len() as int);
    let marked = match view.playhead.column {
        Some(c) => if c < width {
            ticks.update(c as int, '\u{25bc}')
        } else {
            ticks
        },
        None => ticks,
    };
    lemma_labels_width(marked, labels, labels.len() as int);
}

proof fn lemma_tick_width(ticks: Seq<crate::tui::view::Tick>, width: int, n: int)
    requires
        width >= 0,
    ensures
        tick_cells(ticks, width, n).len() == width,
    decreases n,
{
    if n > 0 {
        lemma_tick_width(ticks, width, n - 1);
    }
}

proof fn lemma_labels_width(cells: Seq<char>, labels: Seq<Label>, n: int)
    ensures
        labelled(cells, labels, n).len() == cells.len(),
    decreases n,
{
    if n > 0 {
        lemma_labels_width(cells, labels, n - 1);
    }
}

proof fn lemma_lane_width(view: ViewState, track: TrackView, width: int)
    requires
        width >= 0,
    ensures
        width_of(lane_line(view, track, width)) == GUTTER + width,
{
    let cells = lane_cells(view, track, width);
    let head = seq![SpanView { text: gutter(lane_name(track)), style: lane_look(track) }];
    lemma_cells_concat(head, runs(cells));
    lemma_one_span(head[0].text, head[0].style);
    runs_draw_their_cells(cells);
}

/// Whether every row is as wide as asked.
pub open spec fn all_wide(lines: Seq<Seq<SpanView>>, width: int) -> bool {
    forall|i: int| 0 <= i < lines.len() ==> width_of(#[trigger] lines[i]) == width
}

proof fn lemma_modal_width(
    picker: Option<PickerView>,
    subtitle: Option<Seq<char>>,
    width: int,
    rows: int,
)
    requires
        width >= 0,
        rows >= 0,
    ensures
        all_wide(modal_lines(picker, subtitle, width, rows), width),
{
    let lines = modal_lines(picker, subtitle, width, rows);
    assert forall|i: int| 0 <= i < lines.len() implies width_of(#[trigger] lines[i]) == width by {
        let line = lines[i];
        assert(line.len() == 1);
        assert(line[0].text.len() == width);
        assert(line =~= seq![SpanView { text: line[0].text, style: line[0].style }]);
        lemma_one_span(line[0].text, line[0].style);
    }
}

proof fn lemma_panel_width(lines: Seq<Seq<SpanView>>, panels: Seq<PanelView>, width: int, n: int)
    requires
        width >= 0,
        all_wide(lines, width),
    ensures
        all_wide(with_panels(lines, panels, width, n), width),
        with_panels(lines, panels, width, n).len() == lines.len(),
    decreases n,
{
    if n > 0 {
        lemma_panel_width(lines, panels, width, n - 1);
        let before = with_panels(lines, panels, width, n - 1);
        let after = with_panels(lines, panels, width, n);
        let panel = panels[n - 1];
        let rows = crate::tui::panel::panel_lines(panel);
        let top = panel.rect.row as int;
        assert forall|y: int| 0 <= y < after.len() implies width_of(#[trigger] after[y])
            == width by {
            if top <= y < top + rows.len() {
                runs_draw_their_cells(
                    spliced_cells(before[y], GUTTER + panel.rect.column, rows[y - top], width),
                );
            } else {
                assert(width_of(before[y]) == width);
            }
        }
    }
}

/// Every row of a screen is exactly as wide as the terminal, whatever is open
/// and wherever the panels are. The preview brings rows of its own width, and
/// a terminal narrower than the gutter has no columns to draw in.
pub proof fn every_row_is_as_wide_as_the_terminal(
    view: ViewState,
    picker: Option<PickerView>,
    subtitle: Option<Seq<char>>,
    width: int,
    height: int,
    band: BandView,
    labels: Seq<Label>,
)
    requires
        width >= GUTTER,
        all_wide(band.cells, width),
    ensures
        all_wide(screen(view, picker, subtitle, width, height, band, labels), width),
{
    let columns = width - GUTTER;
    let under = timeline_lines(view, picker, subtitle, width, height, band, labels);
    let blank = blank_line(width);
    lemma_one_span(blank[0].text, blank[0].style);
    assert(blank =~= seq![SpanView { text: blank[0].text, style: blank[0].style }]);
    lemma_ruler_width(view, columns, labels);
    lemma_modal_width(
        picker,
        subtitle,
        width,
        lane_rows(height, command_height(view.command_line), band.rows as int),
    );
    let top = band_lines(band, width);
    assert forall|i: int| 0 <= i < under.len() implies width_of(#[trigger] under[i]) == width by {
        if i < top.len() {
            assert(under[i] == top[i]);
            if i < band.cells.len() {
                assert(width_of(band.cells[i]) == width);
            }
        } else if i > top.len() {
            let k = i - top.len() - 1;
            if picker is Some || subtitle is Some {
                let m = modal_lines(
                    picker,
                    subtitle,
                    width,
                    lane_rows(height, command_height(view.command_line), band.rows as int),
                );
                assert(under[i] == m[k]);
            } else {
                assert(under[i] == lane_line(view, view.tracks@[k], columns));
                lemma_lane_width(view, view.tracks@[k], columns);
            }
        }
    }
    let all = grown(under, wanted_rows(view, height), width);
    assert forall|i: int| 0 <= i < all.len() implies width_of(#[trigger] all[i]) == width by {
        if i < under.len() {
            assert(all[i] == under[i]);
        } else {
            assert(all[i] == blank);
        }
    }
    lemma_panel_width(all, view.panels@, width, view.panels@.len() as int);
    let over = with_panels(all, view.panels@, width, view.panels@.len() as int);
    let s = status_line(view, width);
    assert(s =~= seq![SpanView { text: s[0].text, style: s[0].style }]);
    lemma_one_span(s[0].text, s[0].style);
    let c = command_lines(view.command_line, width);
    assert forall|i: int| 0 <= i < c.len() implies width_of(#[trigger] c[i]) == width by {
        assert(c[i] =~= seq![SpanView { text: c[i][0].text, style: c[i][0].style }]);
        lemma_one_span(c[i][0].text, c[i][0].style);
    }
    let end = screen(view, picker, subtitle, width, height, band, labels);
    assert forall|i: int| 0 <= i < end.len() implies width_of(#[trigger] end[i]) == width by {
        if i < over.len() {
            assert(end[i] == over[i]);
        } else if i > over.len() {
            assert(end[i] == c[i - over.len() - 1]);
        }
    }
}

/// Of two texts on a row the right one is whole and at the edge, and the left
/// one begins the row, with a blank between them. A right one that is too long
/// has the row to itself.
pub proof fn the_right_text_is_at_the_edge(left: Seq<char>, right: Seq<char>, width: int, i: int)
    requires
        0 <= i < width,
    ensures
        justified(left, right, width).len() == width,
        right.len() >= width ==> justified(left, right, width)[i] == right[i],
        right.len() < width && i >= width - right.len() ==> justified(left, right, width)[i]
            == right[i - (width - right.len())],
        right.len() < width && i < width - right.len() - 1 && i < left.len() ==> justified(
            left,
            right,
            width,
        )[i] == left[i],
        right.len() < width && i < width - right.len() && (i >= left.len() || i == width
            - right.len() - 1) ==> justified(left, right, width)[i] == ' ',
{
}

/// The status begins with the mode and ends with the position, as two numbers
/// that read back.
pub proof fn the_status_says_where_the_playhead_is(view: ViewState)
    ensures
        status_left(view).len() >= view.mode_line@.len(),
        status_left(view).take(view.mode_line@.len() as int) == view.mode_line@,
        ({
            let at = decimal(view.playhead.frame.0 as nat);
            let of = decimal(view.duration.0 as nat);
            let s = status_right(view);
            let n = s.len() - of.len();
            &&& s.skip(n as int) == of
            &&& s[n - 1] == '/'
            &&& s.subrange(n - 1 - at.len(), n - 1) == at
            &&& view.pending@.len() > 0 ==> s.take(view.pending@.len() as int) == view.pending@
            &&& view.pending@.len() == 0 ==> s.len() == at.len() + 1 + of.len()
        }),
        view.message is Some ==> status_left(view).skip(
            status_left(view).len() - view.message->Some_0.text@.len(),
        ) == view.message->Some_0.text@,
{
    reveal_strlit("/");
    reveal_strlit(" ");
    let at = decimal(view.playhead.frame.0 as nat);
    let of = decimal(view.duration.0 as nat);
    let s = status_right(view);
    let n = s.len() - of.len();
    assert("/"@.len() == 1 && "/"@[0] == '/');
    assert(" "@.len() == 1);
    assert(s.skip(n as int) =~= of);
    assert(s.subrange(n - 1 - at.len(), n - 1) =~= at);
    if view.pending@.len() > 0 {
        assert(s.take(view.pending@.len() as int) =~= view.pending@);
    }
    assert(status_left(view).take(view.mode_line@.len() as int) =~= view.mode_line@);
    if view.message is Some {
        let text = view.message->Some_0.text@;
        assert(status_left(view).skip(status_left(view).len() - text.len()) =~= text);
    }
}

/// An error is red, a warning yellow, and everything else white.
pub proof fn trouble_is_coloured(view: ViewState)
    ensures
        view.message is None ==> status_look(view).fg == Some(Color::White),
        view.message is Some && view.message->Some_0.severity == Severity::Info ==> status_look(
            view,
        ).fg == Some(Color::White),
        view.message is Some && view.message->Some_0.severity == Severity::Warning ==> status_look(
            view,
        ).fg == Some(Color::Yellow),
        view.message is Some && view.message->Some_0.severity == Severity::Error ==> status_look(
            view,
        ).fg == Some(Color::Red),
{
}

/// Texts that are joined keep their order, with one blank between two of them.
pub proof fn joined_texts_keep_their_order(a: Seq<Seq<char>>, b: Seq<Seq<char>>)
    requires
        a.len() > 0,
        b.len() > 0,
    ensures
        spaced(a + b) == spaced(a) + seq![' '] + spaced(b),
        a.len() == 1 ==> spaced(a) == a[0],
    decreases b.len(),
{
    assert((a + b).drop_last() =~= a + b.drop_last());
    assert((a + b).last() == b.last());
    if b.len() == 1 {
        assert(a + b.drop_last() =~= a);
        assert(spaced(b) == b[0]);
    } else {
        joined_texts_keep_their_order(a, b.drop_last());
        assert(spaced(a) + seq![' '] + (spaced(b.drop_last()) + seq![' '] + b.last()) =~= spaced(a)
            + seq![' '] + spaced(b.drop_last()) + seq![' '] + b.last());
    }
}

/// The command line takes the rows that it wants: the first shows what was
/// typed behind a colon, and the second, where there is one, the suggestions.
pub proof fn the_command_line_shows_what_was_typed(l: CommandLineView, width: int, i: int)
    requires
        0 <= i < width - 1,
        i < l.buffer@.len(),
    ensures
        command_lines(Some(l), width).len() == command_height(Some(l)),
        command_lines(None, width).len() == command_height(None),
        command_height(Some(l)) == (if l.completions@.len() == 0 {
            1int
        } else {
            2
        }),
        command_lines(Some(l), width)[0][0].text.len() == width,
        command_lines(Some(l), width)[0][0].text[0] == ':',
        command_lines(Some(l), width)[0][0].text[i + 1] == l.buffer@[i],
{
}

/// The selected entry, and no other, is pointed at and reversed; a directory is
/// marked as one.
pub proof fn only_the_selected_entry_is_marked(picker: PickerView, i: int, width: int)
    requires
        0 <= i < picker.visible@.len(),
        width > 2 + picker.visible@[i].label@.len(),
    ensures
        ({
            let row = entry_line(picker, i, width)[0];
            let label = picker.visible@[i].label@;
            &&& row.text.len() == width
            &&& (row.text[0] == '>') == (i == picker.selected)
            &&& row.style.reversed == (i == picker.selected)
            &&& row.text.subrange(2, 2 + label.len() as int) == label
            &&& (row.text[2 + label.len() as int] == '/') == picker.visible@[i].is_dir
        }),
{
    let label = picker.visible@[i].label@;
    assert(entry_line(picker, i, width)[0].text.subrange(2, 2 + label.len() as int) =~= label);
}

/// The entries are shown in their order, below the heading, from the first that
/// is shown on.
pub proof fn entries_are_shown_in_their_order(picker: PickerView, width: int, rows: int, i: int)
    requires
        picker.visible@.len() > 0,
        picker.selected < picker.visible@.len(),
        0 <= i < shown_count(picker, rows),
    ensures
        picker_lines(picker, width, rows).len() == 1 + shown_count(picker, rows),
        picker_lines(picker, width, rows)[1 + i] == entry_line(
            picker,
            first_shown(picker.selected as int, rows) + i,
            width,
        ),
        picker.selected < rows - 1 ==> first_shown(picker.selected as int, rows) == 0,
{
}

/// A subtitle that is being typed is shown line by line, below its heading.
pub proof fn a_subtitle_is_shown_line_by_line(text: Seq<char>, width: int, i: int)
    requires
        0 <= i < parts(text, '\n').len(),
    ensures
        subtitle_lines(text, width).len() == 1 + parts(text, '\n').len(),
        subtitle_lines(text, width)[1 + i][0].text == fitted(parts(text, '\n')[i], width),
{
}

/// A screen is laid out from the top: the preview, the ruler, a lane for each
/// track in its order, the status, and the command line.
pub proof fn a_screen_is_laid_out_from_the_top(
    view: ViewState,
    width: int,
    height: int,
    band: BandView,
    labels: Seq<Label>,
    i: int,
)
    requires
        view.panels@.len() == 0,
        0 <= i < view.tracks@.len(),
        width >= GUTTER,
    ensures
        ({
            let s = screen(view, None, None, width, height, band, labels);
            let top = band.rows as int;
            let n = view.tracks@.len() as int;
            &&& s.len() == top + 1 + n + 1 + command_height(view.command_line)
            &&& forall|y: int|
                0 <= y < top && y < band.cells.len() ==> #[trigger] s[y] == band.cells[y]
            &&& s[top] == ruler_line(view, width - GUTTER, labels)
            &&& s[top + 1 + i] == lane_line(view, view.tracks@[i], width - GUTTER)
            &&& s[top + 1 + n] == status_line(view, width)
            &&& view.command_line is Some ==> s[top + 2 + n] == command_lines(
                view.command_line,
                width,
            )[0]
        }),
{
    let under = timeline_lines(view, None, None, width, height, band, labels);
    let g = grown(under, wanted_rows(view, height), width);
    assert(lowest_row(view.panels@, 0) == 0);
    assert(wanted_rows(view, height) == 0);
    assert(g =~= under);
    assert(with_panels(g, view.panels@, width, 0) == g);
}

/// What is open stands where the lanes stood.
pub proof fn what_is_open_stands_over_the_lanes(
    view: ViewState,
    picker: PickerView,
    width: int,
    height: int,
    band: BandView,
    labels: Seq<Label>,
    i: int,
)
    requires
        view.panels@.len() == 0,
        picker.selected < picker.visible@.len(),
        width >= GUTTER,
        0 <= i < 1 + shown_count(
            picker,
            lane_rows(height, command_height(view.command_line), band.rows as int),
        ),
        i < lane_rows(height, command_height(view.command_line), band.rows as int),
    ensures
        ({
            let rows = lane_rows(height, command_height(view.command_line), band.rows as int);
            let s = screen(view, Some(picker), None, width, height, band, labels);
            &&& s[band.rows as int] == ruler_line(view, width - GUTTER, labels)
            &&& s[band.rows + 1 + i] == picker_lines(picker, width, rows)[i]
        }),
{
    let under = timeline_lines(view, Some(picker), None, width, height, band, labels);
    let g = grown(under, wanted_rows(view, height), width);
    assert(lowest_row(view.panels@, 0) == 0);
    assert(wanted_rows(view, height) == 0);
    assert(g =~= under);
    assert(with_panels(g, view.panels@, width, 0) == g);
}

/// A screen grows so that every panel fits, as far as there is room above the
/// status and the command line.
pub proof fn a_screen_grows_to_its_panels(view: ViewState, height: int, k: int)
    requires
        0 <= k < view.panels@.len(),
        view.panels@[k].rect.row + view.panels@[k].rect.rows <= u32::MAX,
    ensures
        view.panels@[k].rect.row + view.panels@[k].rect.rows <= wanted_rows(view, height) || (
        wanted_rows(view, height) == height - 1 - command_height(view.command_line)) || (
        wanted_rows(view, height) == 1 && height - 1 - command_height(view.command_line) < 1),
{
    lemma_lowest_row(view.panels@, view.panels@.len() as int, k);
}

proof fn lemma_lowest_row(panels: Seq<PanelView>, n: int, k: int)
    requires
        0 <= k < n <= panels.len(),
        panels[k].rect.row + panels[k].rect.rows <= u32::MAX,
    ensures
        panels[k].rect.row + panels[k].rect.rows <= lowest_row(panels, n),
    decreases n,
{
    if k < n - 1 {
        lemma_lowest_row(panels, n - 1, k);
    }
}

/// The rows of a screen add up: the lanes have what the preview, the ruler, the
/// status and the command line leave, and at least one.
pub proof fn the_lanes_have_what_is_left(height: int, command_rows: int, preview_rows: int)
    ensures
        lane_rows(height, command_rows, preview_rows) >= 1,
        height >= command_rows + preview_rows + 3 ==> preview_rows + 1 + lane_rows(
            height,
            command_rows,
            preview_rows,
        ) + 1 + command_rows == height,
{
}

} // verus!
