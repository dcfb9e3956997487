//! The rows of the timeline: the ruler, and a lane for each track.
use vstd::prelude::*;
use vstd::string::*;

use crate::model::TrackId;
use crate::model::TrackKind;
use crate::text::chars_of;
use crate::tui::style::Color;
use crate::tui::style::Glyph;
use crate::tui::style::Span;
use crate::tui::style::SpanView;
use crate::tui::style::Style;
use crate::tui::style::coloured;
use crate::tui::style::group;
use crate::tui::style::runs;
use crate::tui::style::spans_view;
use crate::tui::style::styled;
use crate::tui::style::unstyled;
use crate::tui::view::ClipView;
use crate::tui::view::Label;
use crate::tui::view::Selection;
use crate::tui::view::Tick;
use crate::tui::view::TrackView;
use crate::tui::view::ViewState;

verus! {

/// The columns of the gutter, its separator included.
pub const GUTTER: u16 = 10;

/// What the ruler is drawn with.
pub const RULE: char = '\u{2500}';

/// Text cut or padded to a width.
pub open spec fn fitted(text: Seq<char>, width: int) -> Seq<char> {
    Seq::new(
        width as nat,
        |i: int|
            if i < text.len() {
                text[i]
            } else {
                ' '
            },
    )
}

/// Text cut or padded to a width.
pub fn fit(text: &str, width: u16) -> (s: String)
    ensures
        s@ == fitted(text@, width as int),
{
    fit_to(text, width as usize)
}

/// Text cut or padded to a width.
pub fn fit_to(text: &str, width: usize) -> (s: String)
    ensures
        s@ == fitted(text@, width as int),
{
    let chars = chars_of(text);
    let n: usize = chars.len();
    let mut s = String::new();
    let mut i: usize = 0;
    while i < width
        invariant
            i <= width,
            n == chars@.len(),
            chars@ == text@,
            s@ =~= fitted(text@, width as int).take(i as int),
        decreases width - i,
    {
        if i < n {
            s.push(chars[i]);
        } else {
            s.push(' ');
        }
        i = i + 1;
    }
    assert(s@ =~= fitted(text@, width as int));
    s
}

/// A label in the gutter.
pub open spec fn gutter(label: Seq<char>) -> Seq<char> {
    fitted(label, 9).push('\u{2502}')
}

/// A label in the gutter: cut or padded, then the separator.
pub fn gutter_text(label: &str) -> (s: String)
    ensures
        s@ == gutter(label@),
{
    let mut s = fit(label, GUTTER - 1);
    s.push('\u{2502}');
    s
}

/// How a clip is drawn: missing media stands out, a kind has its colour, and
/// a clip that is edited together with others has the darker shade of it.
pub open spec fn clip_look(kind: TrackKind, clip: ClipView) -> Style {
    coloured(
        if clip.offline {
            Color::Red
        } else if clip.linked {
            if kind == TrackKind::Audio {
                Color::Indexed(28)
            } else {
                Color::Indexed(30)
            }
        } else if kind == TrackKind::Audio {
            Color::Green
        } else {
            Color::Cyan
        },
    )
}

pub fn clip_style(track: &TrackView, clip: &ClipView) -> (s: Style)
    ensures
        s == clip_look(track.kind, *clip),
{
    let audio = match track.kind {
        TrackKind::Audio => true,
        _ => false,
    };
    let colour = if clip.offline {
        Color::Red
    } else if clip.linked {
        if audio {
            Color::Indexed(28)
        } else {
            Color::Indexed(30)
        }
    } else if audio {
        Color::Green
    } else {
        Color::Cyan
    };
    Style::color(colour)
}

/// Linking darkens a clip and never changes whether it looks like sound or
/// like a picture; missing media looks the same however it is linked.
pub proof fn a_kind_keeps_its_hue(a: ClipView, b: ClipView)
    requires
        !a.offline,
        !b.offline,
    ensures
        clip_look(TrackKind::Video, a) != clip_look(TrackKind::Audio, b),
        forall|c: ClipView, d: ClipView, k: TrackKind, l: TrackKind|
            c.offline && d.offline ==> #[trigger] clip_look(k, c) == #[trigger] clip_look(l, d),
{
}

/// How the name of a track is drawn.
pub open spec fn lane_look(track: TrackView) -> Style {
    Style {
        fg: Some(
            if track.muted || track.silenced_by_solo {
                Color::DarkGray
            } else {
                Color::Gray
            },
        ),
        bg: None,
        bold: track.focused,
        reversed: false,
    }
}

pub fn lane_style(track: &TrackView) -> (s: Style)
    ensures
        s == lane_look(*track),
{
    let base = if track.muted || track.silenced_by_solo {
        Style::color(Color::DarkGray)
    } else {
        Style::color(Color::Gray)
    };
    if track.focused {
        base.bold()
    } else {
        base
    }
}

/// The name of a track, with the marks that change what it does.
pub open spec fn lane_name(track: TrackView) -> Seq<char> {
    seq![
        if track.focused {
            '>'
        } else {
            ' '
        },
    ] + track.name@ + (if track.muted {
        seq!['m']
    } else {
        Seq::empty()
    }) + (if track.solo {
        seq!['s']
    } else {
        Seq::empty()
    }) + (if track.locked {
        seq!['L']
    } else {
        Seq::empty()
    })
}

pub fn gutter_label(track: &TrackView) -> (s: String)
    ensures
        s@ == lane_name(*track),
{
    let mut s = String::new();
    s.push(
        if track.focused {
            '>'
        } else {
            ' '
        },
    );
    s.append(track.name.as_str());
    if track.muted {
        s.push('m');
    }
    if track.solo {
        s.push('s');
    }
    if track.locked {
        s.push('L');
    }
    assert(s@ =~= lane_name(*track));
    s
}

/// The block that shows a level; there are eight of them.
pub open spec fn level_block(level: u8) -> char {
    (0x2581 + level as int / 32) as char
}

pub fn level_char(level: u8) -> (c: char)
    ensures
        c == level_block(level),
{
    let step = level / 32;
    if step == 0 {
        '\u{2581}'
    } else if step == 1 {
        '\u{2582}'
    } else if step == 2 {
        '\u{2583}'
    } else if step == 3 {
        '\u{2584}'
    } else if step == 4 {
        '\u{2585}'
    } else if step == 5 {
        '\u{2586}'
    } else if step == 6 {
        '\u{2587}'
    } else {
        '\u{2588}'
    }
}

/// How many columns a clip has.
pub open spec fn room(clip: ClipView) -> int {
    if clip.columns.1 < clip.columns.0 {
        1
    } else {
        clip.columns.1 - clip.columns.0 + 1
    }
}

/// A cell after a clip was drawn over it: its label where there is room for
/// one, the level of its sound, or its body.
pub open spec fn clip_cell(old_cell: Glyph, track: TrackView, clip: ClipView, x: int) -> Glyph {
    let first = clip.columns.0 as int;
    let last = clip.columns.1 as int;
    let style = clip_look(track.kind, clip);
    let n = x - (first + 1);
    if room(clip) >= 3 && 0 <= n < clip.label@.len() && n < room(clip) - 1 {
        (clip.label@[n], style)
    } else if first <= x <= last {
        (
            if track.kind == TrackKind::Audio && x < track.waveform@.len() {
                level_block(track.waveform@[x])
            } else if clip.offline {
                '\u{2591}'
            } else {
                '\u{2588}'
            },
            style,
        )
    } else {
        old_cell
    }
}

/// The cells of a lane with its first `n` clips.
pub open spec fn clip_cells(track: TrackView, width: int, n: int) -> Seq<Glyph>
    decreases n,
{
    if n <= 0 {
        Seq::new(width as nat, |x: int| (' ', unstyled()))
    } else {
        let before = clip_cells(track, width, n - 1);
        Seq::new(width as nat, |x: int| clip_cell(before[x], track, track.clips@[n - 1], x))
    }
}

/// Whether a column of a track is selected.
pub open spec fn is_selected(selection: Option<Selection>, track: TrackId, x: int) -> bool {
    match selection {
        Some(s) => s.tracks@.contains(track) && match s.columns {
            Some((first, last)) => first <= x <= last,
            None => false,
        },
        None => false,
    }
}

/// The playhead on a lane: bright where an edit would happen.
pub open spec fn playhead_cell(focused: bool) -> Glyph {
    (
        '\u{2502}',
        if focused {
            Style { fg: Some(Color::Yellow), bg: None, bold: true, reversed: false }
        } else {
            coloured(Color::DarkGray)
        },
    )
}

/// The cells of a lane: its clips, with what is selected reversed, and the
/// playhead over everything.
pub open spec fn lane_cells(view: ViewState, track: TrackView, width: int) -> Seq<Glyph> {
    let clips = clip_cells(track, width, track.clips@.len() as int);
    Seq::new(
        width as nat,
        |x: int|
            if view.playhead.column == Some(x as u32) {
                playhead_cell(track.focused)
            } else if is_selected(view.selection, track.id, x) {
                (clips[x].0, Style { reversed: true, ..clips[x].1 })
            } else {
                clips[x]
            },
    )
}

/// A lane: the name in the gutter, then the clips.
pub open spec fn lane_line(view: ViewState, track: TrackView, width: int) -> Seq<SpanView> {
    seq![SpanView { text: gutter(lane_name(track)), style: lane_look(track) }] + runs(
        lane_cells(view, track, width),
    )
}

fn clip_glyph(
    old_cell: Glyph,
    track: &TrackView,
    clip: &ClipView,
    label: &Vec<char>,
    style: Style,
    x: u32,
) -> (g: Glyph)
    requires
        label@ == clip.label@,
        style == clip_look(track.kind, *clip),
    ensures
        g == clip_cell(old_cell, *track, *clip, x as int),
{
    let first: u64 = clip.columns.0 as u64;
    let last: u64 = clip.columns.1 as u64;
    let at: u64 = x as u64;
    let columns: u64 = if last < first {
        1
    } else {
        last - first + 1
    };
    if columns >= 3 && at >= first + 1 {
        let n: u64 = at - (first + 1);
        let len: usize = label.len();
        if n < len as u64 && n < columns - 1 {
            return (label[n as usize], style);
        }
    }
    if first <= at && at <= last {
        let audio = match track.kind {
            TrackKind::Audio => true,
            _ => false,
        };
        let levels: usize = track.waveform.len();
        let c = if audio && (x as u64) < levels as u64 {
            level_char(track.waveform[x as usize])
        } else if clip.offline {
            '\u{2591}'
        } else {
            '\u{2588}'
        };
        (c, style)
    } else {
        old_cell
    }
}

fn has_track(tracks: &Vec<TrackId>, track: TrackId) -> (b: bool)
    ensures
        b == tracks@.contains(track),
{
    let n: usize = tracks.len();
    let mut i: usize = 0;
    while i < n
        invariant
            i <= n == tracks@.len(),
            forall|k: int| 0 <= k < i ==> #[trigger] tracks@[k] != track,
        decreases n - i,
    {
        if tracks[i] == track {
            assert(tracks@[i as int] == track);
            return true;
        }
        i = i + 1;
    }
    false
}

fn draw_clips(track: &TrackView, columns: u16) -> (cells: Vec<Glyph>)
    ensures
        cells@ == clip_cells(*track, columns as int, track.clips@.len() as int),
{
    let mut cells: Vec<Glyph> = Vec::new();
    let mut x: u16 = 0;
    while x < columns
        invariant
            x <= columns,
            cells@ =~= clip_cells(*track, columns as int, 0).take(x as int),
        decreases columns - x,
    {
        cells.push((' ', Style::default()));
        x = x + 1;
    }
    assert(cells@ =~= clip_cells(*track, columns as int, 0));
    let n: usize = track.clips.len();
    let mut i: usize = 0;
    while i < n
        invariant
            i <= n == track.clips@.len(),
            cells@ == clip_cells(*track, columns as int, i as int),
        decreases n - i,
    {
        let clip = &track.clips[i];
        let label = chars_of(clip.label.as_str());
        let style = clip_style(track, clip);
        let ghost before = cells@;
        let ghost next = clip_cells(*track, columns as int, i as int + 1);
        let mut x: u16 = 0;
        while x < columns
            invariant
                x <= columns,
                i < n == track.clips@.len(),
                *clip == track.clips@[i as int],
                label@ == clip.label@,
                style == clip_look(track.kind, *clip),
                before == clip_cells(*track, columns as int, i as int),
                next == clip_cells(*track, columns as int, i as int + 1),
                cells@.len() == columns,
                before.len() == columns,
                forall|k: int| 0 <= k < x ==> #[trigger] cells@[k] == next[k],
                forall|k: int| x <= k < columns ==> #[trigger] cells@[k] == before[k],
            decreases columns - x,
        {
            let g = clip_glyph(cells[x as usize], track, clip, &label, style, x as u32);
            assert(g == next[x as int]);
            cells.set(x as usize, g);
            x = x + 1;
        }
        assert(cells@ =~= next);
        i = i + 1;
    }
    cells
}

/// One track: its name in the gutter, its clips in the columns.
pub fn lane(view: &ViewState, track: &TrackView, columns: u16) -> (line: Vec<Span>)
    ensures
        spans_view(line@) == lane_line(*view, *track, columns as int),
{
    let mut cells = draw_clips(track, columns);
    let ghost clips = cells@;
    let ghost goal = lane_cells(*view, *track, columns as int);
    let chosen: Option<(u32, u32)> = match &view.selection {
        Some(s) => if has_track(&s.tracks, track.id) {
            s.columns
        } else {
            None
        },
        None => None,
    };
    let mut x: u16 = 0;
    while x < columns
        invariant
            x <= columns,
            cells@.len() == columns == clips.len(),
            clips == clip_cells(*track, columns as int, track.clips@.len() as int),
            goal == lane_cells(*view, *track, columns as int),
            forall|k: int|
                is_selected(view.selection, track.id, k) == (match chosen {
                    Some((first, last)) => first <= k <= last,
                    None => false,
                }),
            forall|k: int| 0 <= k < x ==> #[trigger] cells@[k] == goal[k],
            forall|k: int| x <= k < columns ==> #[trigger] cells@[k] == clips[k],
        decreases columns - x,
    {
        let at: u32 = x as u32;
        let old_cell = cells[x as usize];
        let under = match view.playhead.column {
            Some(c) => c == at,
            None => false,
        };
        let inside = match chosen {
            Some((first, last)) => first <= at && at <= last,
            None => false,
        };
        let new_cell = if under {
            if track.focused {
                ('\u{2502}', Style::color(Color::Yellow).bold())
            } else {
                ('\u{2502}', Style::color(Color::DarkGray))
            }
        } else if inside {
            (old_cell.0, old_cell.1.reversed())
        } else {
            old_cell
        };
        assert(is_selected(view.selection, track.id, x as int) == inside);
        assert(new_cell == goal[x as int]);
        cells.set(x as usize, new_cell);
        x = x + 1;
    }
    assert(cells@ =~= goal);
    let mut spans: Vec<Span> = Vec::new();
    let name = gutter_label(track);
    spans.push(styled(gutter_text(name.as_str()), lane_style(track)));
    let mut rest = group(&cells);
    let ghost head = spans@;
    let ghost tail = rest@;
    spans.append(&mut rest);
    assert(spans_view(spans@) =~= spans_view(head) + spans_view(tail));
    assert(spans_view(head) =~= seq![
        SpanView { text: gutter(lane_name(*track)), style: lane_look(*track) },
    ]);
    spans
}

/// A ruler with its first `n` ticks.
pub open spec fn tick_cells(ticks: Seq<Tick>, width: int, n: int) -> Seq<char>
    decreases n,
{
    if n <= 0 {
        Seq::new(width as nat, |x: int| RULE)
    } else {
        let before = tick_cells(ticks, width, n - 1);
        let t = ticks[n - 1];
        if t.column < width {
            before.update(
                t.column as int,
                if t.major {
                    '\u{253c}'
                } else {
                    '\u{252c}'
                },
            )
        } else {
            before
        }
    }
}

/// Text written over cells from `at` on, as far as there are cells.
pub open spec fn written(cells: Seq<char>, at: int, text: Seq<char>) -> Seq<char> {
    Seq::new(
        cells.len(),
        |x: int|
            if at <= x < at + text.len() {
                text[x - at]
            } else {
                cells[x]
            },
    )
}

/// Cells with the first `n` labels written over them.
pub open spec fn labelled(cells: Seq<char>, labels: Seq<Label>, n: int) -> Seq<char>
    decreases n,
{
    if n <= 0 {
        cells
    } else {
        written(
            labelled(cells, labels, n - 1),
            labels[n - 1].offset as int,
            labels[n - 1].text@,
        )
    }
}

/// The ruler: the ticks, the playhead over them, and the numbers over both.
pub open spec fn ruler_cells(view: ViewState, width: int, labels: Seq<Label>) -> Seq<char> {
    let ticks = tick_cells(view.ticks@, width, view.ticks@.len() as int);
    let marked = match view.playhead.column {
        Some(c) => if c < width {
            ticks.update(c as int, '\u{25bc}')
        } else {
            ticks
        },
        None => ticks,
    };
    labelled(marked, labels, labels.len() as int)
}

/// The ruler's row.
pub open spec fn ruler_line(view: ViewState, width: int, labels: Seq<Label>) -> Seq<SpanView> {
    seq![
        SpanView { text: gutter("time"@), style: coloured(Color::DarkGray) },
        SpanView { text: ruler_cells(view, width, labels), style: coloured(Color::DarkGray) },
    ]
}

/// Writes labels over cells.
pub fn label_ticks(cells: &mut Vec<char>, labels: &Vec<Label>)
    ensures
        final(cells)@ == labelled(old(cells)@, labels@, labels@.len() as int),
{
    let ghost start = cells@;
    let n: usize = labels.len();
    let width: usize = cells.len();
    let mut i: usize = 0;
    while i < n
        invariant
            i <= n == labels@.len(),
            cells@.len() == width,
            cells@ == labelled(start, labels@, i as int),
        decreases n - i,
    {
        let text = chars_of(labels[i].text.as_str());
        let at: u64 = labels[i].offset as u64;
        let len: usize = text.len();
        let ghost before = cells@;
        let ghost next = labelled(start, labels@, i as int + 1);
        let mut k: usize = 0;
        while k < len
            invariant
                k <= len == text@.len(),
                i < n == labels@.len(),
                at == labels@[i as int].offset,
                text@ == labels@[i as int].text@,
                before == labelled(start, labels@, i as int),
                before.len() == width,
                cells@ =~= written(before, at as int, text@.take(k as int)),
            decreases len - k,
        {
            let ghost so_far = cells@;
            if (at as u128) + (k as u128) < width as u128 {
                let x = (at as u128 + k as u128) as usize;
                cells.set(x, text[k]);
            }
            assert(cells@ =~= written(before, at as int, text@.take(k as int + 1)));
            k = k + 1;
        }
        assert(text@.take(k as int) =~= text@);
        assert(cells@ =~= next);
        i = i + 1;
    }
}

/// The ruler: the ticks, the playhead's column, and the numbers.
pub fn ruler(view: &ViewState, columns: u16, labels: &Vec<Label>) -> (line: Vec<Span>)
    ensures
        spans_view(line@) == ruler_line(*view, columns as int, labels@),
{
    let mut cells: Vec<char> = Vec::new();
    let mut x: u16 = 0;
    while x < columns
        invariant
            x <= columns,
            cells@ =~= tick_cells(view.ticks@, columns as int, 0).take(x as int),
        decreases columns - x,
    {
        cells.push(RULE);
        x = x + 1;
    }
    assert(cells@ =~= tick_cells(view.ticks@, columns as int, 0));
    let n: usize = view.ticks.len();
    let mut i: usize = 0;
    while i < n
        invariant
            i <= n == view.ticks@.len(),
            cells@.len() == columns,
            cells@ == tick_cells(view.ticks@, columns as int, i as int),
        decreases n - i,
    {
        let t = view.ticks[i];
        if t.column < columns as u32 {
            cells.set(
                t.column as usize,
                if t.major {
                    '\u{253c}'
                } else {
                    '\u{252c}'
                },
            );
        }
        i = i + 1;
    }
    if let Some(c) = view.playhead.column {
        if c < columns as u32 {
            cells.set(c as usize, '\u{25bc}');
        }
    }
    label_ticks(&mut cells, labels);
    assert(cells@ == ruler_cells(*view, columns as int, labels@));
    let text = crate::text::text_of(cells.as_slice());
    let mut line: Vec<Span> = Vec::new();
    line.push(styled(gutter_text("time"), Style::color(Color::DarkGray)));
    line.push(styled(text, Style::color(Color::DarkGray)));
    assert(spans_view(line@) =~= ruler_line(*view, columns as int, labels@));
    line
}

/// Cutting or padding keeps the start of a text, and pads with blanks.
pub proof fn a_fitted_text_keeps_its_start(text: Seq<char>, width: int)
    requires
        width >= 0,
    ensures
        fitted(text, width).len() == width,
        text.len() >= width ==> fitted(text, width) == text.take(width),
        text.len() < width ==> fitted(text, width).take(text.len() as int) == text,
        forall|i: int| text.len() <= i < width ==> #[trigger] fitted(text, width)[i] == ' ',
{
    if text.len() >= width {
        assert(fitted(text, width) =~= text.take(width));
    } else {
        assert(fitted(text, width).take(text.len() as int) =~= text);
    }
}

proof fn lemma_clip_cells_width(track: TrackView, width: int, n: int)
    requires
        width >= 0,
    ensures
        clip_cells(track, width, n).len() == width,
    decreases n,
{
}

/// A clip is drawn in its own columns and in no others: where none after it
/// covers a column, the column has the look of the clip, and a column that no
/// clip covers is blank.
pub proof fn a_clip_is_drawn_in_its_columns(track: TrackView, width: int, n: int, k: int, x: int)
    requires
        0 <= x < width,
        0 <= n <= track.clips@.len(),
        -1 <= k < n,
        k >= 0 ==> track.clips@[k].columns.0 <= x <= track.clips@[k].columns.1,
        forall|j: int|
            k < j < n ==> !((#[trigger] track.clips@[j]).columns.0 <= x
                <= track.clips@[j].columns.1),
    ensures
        k >= 0 ==> clip_cells(track, width, n)[x].1 == clip_look(track.kind, track.clips@[k]),
        k < 0 ==> clip_cells(track, width, n)[x] == (' ', unstyled()),
    decreases n,
{
    if n > 0 {
        lemma_clip_cells_width(track, width, n - 1);
        let clip = track.clips@[n - 1];
        if k < n - 1 {
            a_clip_is_drawn_in_its_columns(track, width, n - 1, k, x);
            assert(clip_cell(clip_cells(track, width, n - 1)[x], track, clip, x)
                == clip_cells(track, width, n - 1)[x]);
        }
    }
}

/// What a column of a clip shows. The first column is its body. Its label
/// begins after that, where the clip has three columns or more, and is cut
/// where the clip ends. Everywhere else a sound shows its level, missing media
/// a light shade, and the rest is solid.
pub proof fn a_clip_is_labelled_after_its_edge(
    old_cell: Glyph,
    track: TrackView,
    clip: ClipView,
    x: int,
)
    requires
        clip.columns.0 <= x <= clip.columns.1,
    ensures
        ({
            let g = clip_cell(old_cell, track, clip, x);
            let wide = clip.columns.1 - clip.columns.0 >= 2;
            let body = x == clip.columns.0 || !wide || x - clip.columns.0 > clip.label@.len();
            &&& g.1 == clip_look(track.kind, clip)
            &&& !body ==> g.0 == clip.label@[x - clip.columns.0 - 1]
            &&& body && track.kind == TrackKind::Audio && x < track.waveform@.len() ==> g.0
                == level_block(track.waveform@[x])
            &&& body && track.kind != TrackKind::Audio ==> g.0 == (if clip.offline {
                '\u{2591}'
            } else {
                '\u{2588}'
            })
            &&& body && track.kind == TrackKind::Audio && x >= track.waveform@.len() ==> g.0 == (
            if clip.offline {
                '\u{2591}'
            } else {
                '\u{2588}'
            })
        }),
{
}

/// Missing media is red, sound green and pictures cyan; a linked clip has the
/// darker shade of its colour.
pub proof fn clips_have_the_colour_of_their_kind(clip: ClipView)
    ensures
        clip.offline ==> clip_look(TrackKind::Audio, clip).fg == Some(Color::Red) && clip_look(
            TrackKind::Video,
            clip,
        ).fg == Some(Color::Red),
        !clip.offline && !clip.linked ==> clip_look(TrackKind::Audio, clip).fg == Some(Color::Green)
            && clip_look(TrackKind::Video, clip).fg == Some(Color::Cyan),
        !clip.offline && clip.linked ==> clip_look(TrackKind::Audio, clip).fg == Some(
            Color::Indexed(28),
        ) && clip_look(TrackKind::Video, clip).fg == Some(Color::Indexed(30)),
{
}

/// The louder a level, the taller its block: silence has the lowest of them and
/// the loudest level the full one.
pub proof fn a_louder_level_is_taller(a: u8, b: u8)
    requires
        a <= b,
    ensures
        level_block(a) as int <= level_block(b) as int,
        b >= a + 32 ==> (level_block(a) as int) < level_block(b) as int,
        level_block(0) == '\u{2581}',
        level_block(255) == '\u{2588}',
{
}

/// A lane shows its clips, with two exceptions: the playhead stands over
/// everything in its column, and what is selected is reversed and else
/// unchanged.
pub proof fn a_lane_shows_its_clips(view: ViewState, track: TrackView, width: int, x: int)
    requires
        0 <= x < width,
        width <= u32::MAX,
    ensures
        ({
            let cells = lane_cells(view, track, width);
            let clips = clip_cells(track, width, track.clips@.len() as int);
            let here = view.playhead.column is Some && view.playhead.column->Some_0 == x;
            &&& cells.len() == width
            &&& here ==> cells[x].0 == '\u{2502}'
            &&& here ==> cells[x].1.bold == track.focused
            &&& !here ==> cells[x].0 == clips[x].0 && cells[x].1.fg == clips[x].1.fg
            &&& !here && view.selection is None ==> cells[x] == clips[x]
            &&& !here && view.selection is Some && view.selection->Some_0.columns is Some ==> (
            view.selection->Some_0.tracks@.contains(track.id)
                && view.selection->Some_0.columns->Some_0.0 <= x
                && x <= view.selection->Some_0.columns->Some_0.1 ==> cells[x].1.reversed)
            &&& !here && view.selection is Some && (!view.selection->Some_0.tracks@.contains(
                track.id,
            ) || view.selection->Some_0.columns is None) ==> cells[x] == clips[x]
        }),
{
    lemma_clip_cells_width(track, width, track.clips@.len() as int);
}

/// The name of a track begins with the mark of the focus and the name itself,
/// and every mark after it says what it says.
pub proof fn a_track_is_named_with_its_marks(track: TrackView)
    ensures
        lane_name(track)[0] == (if track.focused {
            '>'
        } else {
            ' '
        }),
        lane_name(track).subrange(1, 1 + track.name@.len() as int) == track.name@,
        lane_name(track).len() == 1 + track.name@.len() + (if track.muted {
            1int
        } else {
            0
        }) + (if track.solo {
            1int
        } else {
            0
        }) + (if track.locked {
            1int
        } else {
            0
        }),
        track.muted ==> lane_name(track)[1 + track.name@.len() as int] == 'm',
        track.solo ==> lane_name(track)[lane_name(track).len() - (if track.locked {
            2int
        } else {
            1
        })] == 's',
        track.locked ==> lane_name(track).last() == 'L',
{
    assert(lane_name(track).subrange(1, 1 + track.name@.len() as int) =~= track.name@);
}

/// A tick stands in its column; where two share one, the later counts. A column
/// without a tick is ruled.
pub proof fn a_tick_stands_in_its_column(ticks: Seq<Tick>, width: int, n: int, k: int, x: int)
    requires
        0 <= x < width,
        0 <= n <= ticks.len(),
        -1 <= k < n,
        k >= 0 ==> ticks[k].column == x,
        forall|j: int| k < j < n ==> (#[trigger] ticks[j]).column != x,
    ensures
        tick_cells(ticks, width, n).len() == width,
        k < 0 ==> tick_cells(ticks, width, n)[x] == '\u{2500}',
        k >= 0 ==> tick_cells(ticks, width, n)[x] == (if ticks[k].major {
            '\u{253c}'
        } else {
            '\u{252c}'
        }),
    decreases n,
{
    if n > 0 {
        if k < n - 1 {
            a_tick_stands_in_its_column(ticks, width, n - 1, k, x);
        } else {
            lemma_ticks_width(ticks, width, n - 1);
        }
    }
}

proof fn lemma_ticks_width(ticks: Seq<Tick>, width: int, n: int)
    requires
        width >= 0,
    ensures
        tick_cells(ticks, width, n).len() == width,
    decreases n,
{
    if n > 0 {
        lemma_ticks_width(ticks, width, n - 1);
    }
}

/// A number stands where it was put, over what was there, and changes nothing
/// else; the last one that covers a column is the one that is read.
pub proof fn a_label_stands_where_it_was_put(
    cells: Seq<char>,
    labels: Seq<Label>,
    n: int,
    k: int,
    x: int,
)
    requires
        0 <= x < cells.len(),
        0 <= n <= labels.len(),
        -1 <= k < n,
        k >= 0 ==> labels[k].offset <= x < labels[k].offset + labels[k].text@.len(),
        forall|j: int|
            k < j < n ==> !((#[trigger] labels[j]).offset <= x < labels[j].offset
                + labels[j].text@.len()),
    ensures
        labelled(cells, labels, n).len() == cells.len(),
        k < 0 ==> labelled(cells, labels, n)[x] == cells[x],
        k >= 0 ==> labelled(cells, labels, n)[x] == labels[k].text@[x - labels[k].offset],
    decreases n,
{
    if n > 0 {
        if k < n - 1 {
            a_label_stands_where_it_was_put(cells, labels, n - 1, k, x);
        } else {
            lemma_labelled_width(cells, labels, n - 1);
        }
    }
}

proof fn lemma_labelled_width(cells: Seq<char>, labels: Seq<Label>, n: int)
    ensures
        labelled(cells, labels, n).len() == cells.len(),
    decreases n,
{
    if n > 0 {
        lemma_labelled_width(cells, labels, n - 1);
    }
}

/// The playhead stands on the ruler over its ticks; a number over it is read
/// instead.
pub proof fn the_playhead_stands_on_the_ruler(view: ViewState, width: int, labels: Seq<Label>, x: int)
    requires
        0 <= x < width,
        forall|j: int|
            0 <= j < labels.len() ==> !((#[trigger] labels[j]).offset <= x < labels[j].offset
                + labels[j].text@.len()),
    ensures
        view.playhead.column is Some && view.playhead.column->Some_0 == x ==> ruler_cells(
            view,
            width,
            labels,
        )[x] == '\u{25bc}',
        !(view.playhead.column is Some && view.playhead.column->Some_0 == x) ==> ruler_cells(
            view,
            width,
            labels,
        )[x] == tick_cells(view.ticks@, width, view.ticks@.len() as int)[x],
{
    lemma_ticks_width(view.ticks@, width, view.ticks@.len() as int);
    let ticks = tick_cells(view.ticks@, width, view.ticks@.len() as int);
    let marked = match view.playhead.column {
        Some(c) => if c < width {
            ticks.update(c as int, '\u{25bc}')
        } else {
            ticks
        },
        None => ticks,
    };
    a_label_stands_where_it_was_put(marked, labels, labels.len() as int, -1, x);
}

/// The name of a track that is not heard is dark, and that of the focused one
/// is bold.
pub proof fn a_silent_track_is_dark(track: TrackView)
    ensures
        lane_look(track).fg == Some(Color::DarkGray) <==> track.muted || track.silenced_by_solo,
        !track.muted && !track.silenced_by_solo ==> lane_look(track).fg == Some(Color::Gray),
        lane_look(track).bold == track.focused,
        !lane_look(track).reversed,
{
}

} // verus!
