//! Panels over the editing area.
use vstd::prelude::*;
use vstd::string::*;

use crate::text::chars_of;
use crate::text::decimal;
use crate::text::push_decimal;
use crate::text::repeated;
use crate::tui::lane::GUTTER;
use crate::tui::lane::fit_to;
use crate::tui::lane::fitted;
use crate::tui::preview::lines_view;
use crate::tui::style::Color;
use crate::tui::style::Glyph;
use crate::tui::style::Span;
use crate::tui::style::SpanView;
use crate::tui::style::Style;
use crate::tui::style::cells_of;
use crate::tui::style::coloured;
use crate::tui::style::flatten;
use crate::tui::style::group;
use crate::tui::style::painted;
use crate::tui::style::raw;
use crate::tui::style::runs;
use crate::tui::style::runs_draw_their_cells;
use crate::tui::style::spans_view;
use crate::tui::style::styled;
use crate::tui::style::unstyled;
use crate::tui::view::PanelContent;
use crate::tui::view::PanelRole;
use crate::tui::view::PanelSpan;
use crate::tui::view::PanelView;

verus! {

/// How a stretch of a panel's text is drawn.
pub open spec fn role_look(role: PanelRole) -> Style {
    match role {
        PanelRole::Normal => coloured(Color::Gray),
        PanelRole::Key => Style { bold: true, ..coloured(Color::Yellow) },
        PanelRole::Accent => Style { bold: true, ..coloured(Color::White) },
        PanelRole::Warning => coloured(Color::Red),
    }
}

pub fn role_style(role: PanelRole) -> (s: Style)
    ensures
        s == role_look(role),
{
    match role {
        PanelRole::Normal => Style::color(Color::Gray),
        PanelRole::Key => Style::color(Color::Yellow).bold(),
        PanelRole::Accent => Style::color(Color::White).bold(),
        PanelRole::Warning => Style::color(Color::Red),
    }
}

/// How the frame of a panel is drawn.
pub open spec fn frame_look(panel: PanelView) -> Style {
    coloured(
        if panel.focus {
            Color::White
        } else {
            Color::DarkGray
        },
    )
}

/// A line of a panel's text.
pub open spec fn text_line(line: Seq<PanelSpan>) -> Seq<SpanView> {
    Seq::new(
        line.len(),
        |i: int| SpanView { text: line[i].text@, style: role_look(line[i].role) },
    )
}

/// The text in the place of a picture.
pub open spec fn picture_text(width: u32, height: u32) -> Seq<char> {
    "[picture "@ + decimal(width as nat) + "x"@ + decimal(height as nat) + "]"@
}

/// The lines that a panel shows.
pub open spec fn body(content: PanelContent) -> Seq<Seq<SpanView>> {
    match content {
        PanelContent::Lines(lines) => Seq::new(lines@.len(), |i: int| text_line(lines@[i]@)),
        PanelContent::Pixels { width, height } => seq![
            seq![
                SpanView { text: picture_text(width, height), style: coloured(Color::DarkGray) },
            ],
        ],
    }
}

/// The first `n` spans of a line, cut to a width.
pub open spec fn clipped(line: Seq<SpanView>, width: int, n: int) -> Seq<SpanView>
    decreases n,
{
    if n <= 0 {
        Seq::empty()
    } else {
        let before = clipped(line, width, n - 1);
        let left = width - cells_of(before).len();
        let s = line[n - 1];
        if left <= 0 {
            before
        } else {
            before.push(
                SpanView {
                    text: if s.text.len() > left {
                        s.text.take(left)
                    } else {
                        s.text
                    },
                    style: s.style,
                },
            )
        }
    }
}

/// Blank text.
pub open spec fn blank(n: int) -> Seq<char> {
    Seq::new(n as nat, |i: int| ' ')
}

/// A line cut or padded to a width.
pub open spec fn padded_line(line: Seq<SpanView>, width: int) -> Seq<SpanView> {
    let c = clipped(line, width, line.len() as int);
    c.push(SpanView { text: blank(width - cells_of(c).len()), style: unstyled() })
}

/// Whether a panel is large enough for a frame.
pub open spec fn framed(panel: PanelView) -> bool {
    panel.rect.columns >= 2 && panel.rect.rows >= 2
}

/// The columns inside the frame.
pub open spec fn inside(panel: PanelView) -> int {
    if framed(panel) {
        panel.rect.columns - 2
    } else {
        panel.rect.columns as int
    }
}

/// A rule of some length.
pub open spec fn bar(n: int) -> Seq<char> {
    Seq::new(
        if n < 0 {
            0
        } else {
            n as nat
        },
        |i: int| '\u{2500}',
    )
}

/// The title of a panel.
pub open spec fn title_of(panel: PanelView) -> Seq<char> {
    match panel.title {
        Some(t) => t@,
        None => Seq::empty(),
    }
}

/// A width as the terminal counts it.
pub open spec fn clamped(w: int) -> int {
    if w > 65535 {
        65535
    } else {
        w
    }
}

/// The top of the frame: the title, then a rule.
pub open spec fn top_line(panel: PanelView) -> Seq<SpanView> {
    let t = title_of(panel);
    seq![
        SpanView {
            text: fitted(
                seq!['\u{250c}'] + t + bar(inside(panel) - t.len()) + seq!['\u{2510}'],
                clamped(panel.rect.columns as int),
            ),
            style: frame_look(panel),
        },
    ]
}

/// The bottom of the frame.
pub open spec fn bottom_line(panel: PanelView) -> Seq<SpanView> {
    seq![
        SpanView {
            text: seq!['\u{2514}'] + bar(inside(panel)) + seq!['\u{2518}'],
            style: frame_look(panel),
        },
    ]
}

/// A side of the frame.
pub open spec fn side(panel: PanelView) -> SpanView {
    SpanView { text: seq!['\u{2502}'], style: frame_look(panel) }
}

/// The `i`-th line inside the frame.
pub open spec fn inner_line(panel: PanelView, i: int) -> Seq<SpanView> {
    let lines = body(panel.content);
    let content = if i < lines.len() {
        lines[i]
    } else {
        Seq::empty()
    };
    let row = padded_line(content, inside(panel));
    if framed(panel) {
        seq![side(panel)] + row + seq![side(panel)]
    } else {
        row
    }
}

/// The rows of a panel.
pub open spec fn panel_lines(panel: PanelView) -> Seq<Seq<SpanView>> {
    let h = panel.rect.rows as int;
    Seq::new(
        panel.rect.rows as nat,
        |i: int|
            if framed(panel) {
                if i == 0 {
                    top_line(panel)
                } else if i == h - 1 {
                    bottom_line(panel)
                } else {
                    inner_line(panel, i - 1)
                }
            } else {
                inner_line(panel, i)
            },
    )
}

fn side_span(style: Style) -> (s: Span)
    ensures
        s@ == (SpanView { text: seq!['\u{2502}'], style }),
{
    let mut text = String::new();
    text.push('\u{2502}');
    assert(text@ =~= seq!['\u{2502}']);
    styled(text, style)
}

fn body_lines(content: &PanelContent) -> (lines: Vec<Vec<Span>>)
    ensures
        lines_view(lines@) == body(*content),
{
    let mut out: Vec<Vec<Span>> = Vec::new();
    match content {
        PanelContent::Lines(lines) => {
            let n: usize = lines.len();
            let mut i: usize = 0;
            while i < n
                invariant
                    i <= n == lines@.len(),
                    *content == PanelContent::Lines(*lines),
                    lines_view(out@) =~= body(*content).take(i as int),
                decreases n - i,
            {
                let ghost before = out@;
                let line = &lines[i];
                let mut spans: Vec<Span> = Vec::new();
                let m: usize = line.len();
                let mut k: usize = 0;
                while k < m
                    invariant
                        k <= m == line@.len(),
                        spans_view(spans@) =~= text_line(line@).take(k as int),
                    decreases m - k,
                {
                    let ghost so_far = spans@;
                    spans.push(styled(line[k].text.clone(), role_style(line[k].role)));
                    assert(spans_view(spans@) =~= spans_view(so_far).push(
                        text_line(line@)[k as int],
                    ));
                    k = k + 1;
                }
                assert(spans_view(spans@) =~= text_line(line@));
                out.push(spans);
                assert(lines_view(out@) =~= lines_view(before).push(text_line(line@)));
                i = i + 1;
            }
            assert(lines_view(out@) =~= body(*content));
        },
        PanelContent::Pixels { width, height } => {
            let mut text = "[picture ".to_owned();
            push_decimal(&mut text, *width as u64);
            text.append("x");
            push_decimal(&mut text, *height as u64);
            text.append("]");
            let mut spans: Vec<Span> = Vec::new();
            spans.push(styled(text, Style::color(Color::DarkGray)));
            assert(spans_view(spans@) =~= body(*content)[0]);
            out.push(spans);
            assert(lines_view(out@) =~= body(*content));
        },
    }
    out
}

proof fn lemma_cells_push(line: Seq<SpanView>, s: SpanView)
    ensures
        cells_of(line.push(s)).len() == cells_of(line).len() + s.text.len(),
{
    assert(line.push(s).drop_last() =~= line);
}

/// A line cut or padded to a width is exactly that wide.
pub proof fn a_padded_line_is_as_wide_as_asked(line: Seq<SpanView>, width: int)
    requires
        width >= 0,
    ensures
        cells_of(padded_line(line, width)).len() == width,
{
    lemma_clipped(line, width, line.len() as int);
    lemma_cells_push(
        clipped(line, width, line.len() as int),
        SpanView {
            text: blank(width - cells_of(clipped(line, width, line.len() as int)).len()),
            style: unstyled(),
        },
    );
}

proof fn lemma_clipped(line: Seq<SpanView>, width: int, n: int)
    requires
        width >= 0,
    ensures
        cells_of(clipped(line, width, n)).len() <= width,
    decreases n,
{
    if n > 0 {
        lemma_clipped(line, width, n - 1);
        let before = clipped(line, width, n - 1);
        let left = width - cells_of(before).len();
        let s = line[n - 1];
        if left > 0 {
            lemma_cells_push(
                before,
                SpanView {
                    text: if s.text.len() > left {
                        s.text.take(left)
                    } else {
                        s.text
                    },
                    style: s.style,
                },
            );
        }
    }
}

/// Appends a line, cut or padded to a width.
fn push_padded(row: &mut Vec<Span>, line: &Vec<Span>, width: usize)
    ensures
        spans_view(final(row)@) == spans_view(old(row)@) + padded_line(
            spans_view(line@),
            width as int,
        ),
{
    let ghost head = spans_view(row@);
    let ghost source = spans_view(line@);
    let n: usize = line.len();
    let mut used: usize = 0;
    let mut i: usize = 0;
    while i < n
        invariant
            i <= n == line@.len(),
            source == spans_view(line@),
            used <= width,
            used == cells_of(clipped(source, width as int, i as int)).len(),
            spans_view(row@) =~= head + clipped(source, width as int, i as int),
        decreases n - i,
    {
        let ghost before = clipped(source, width as int, i as int);
        let ghost so_far = row@;
        let left = width - used;
        assert(source[i as int] == line@[i as int]@);
        if left > 0 {
            let chars = chars_of(line[i].text.as_str());
            let len: usize = chars.len();
            let take: usize = if len > left {
                left
            } else {
                len
            };
            let mut text = String::new();
            let mut k: usize = 0;
            while k < take
                invariant
                    k <= take <= chars@.len(),
                    text@ =~= chars@.take(k as int),
                decreases take - k,
            {
                text.push(chars[k]);
                k = k + 1;
            }
            let ghost s = SpanView {
                text: if source[i as int].text.len() > left {
                    source[i as int].text.take(left as int)
                } else {
                    source[i as int].text
                },
                style: source[i as int].style,
            };
            assert(text@ =~= s.text);
            proof {
                lemma_cells_push(before, s);
            }
            row.push(styled(text, line[i].style));
            assert(spans_view(row@) =~= spans_view(so_far).push(s));
            used = used + take;
        }
        i = i + 1;
    }
    let ghost so_far = row@;
    let text = repeated(' ', width - used);
    assert(text@ =~= blank(width - used));
    row.push(raw(text));
    assert(spans_view(row@) =~= spans_view(so_far).push(
        SpanView { text: blank(width - used), style: unstyled() },
    ));
    assert(spans_view(row@) =~= head + padded_line(source, width as int));
}

fn top_row(panel: &PanelView, style: Style, within: usize) -> (row: Vec<Span>)
    requires
        style == frame_look(*panel),
        within == inside(*panel),
    ensures
        spans_view(row@) == top_line(*panel),
{
    let mut text = String::new();
    text.push('\u{250c}');
    let mut len: usize = 0;
    if let Some(t) = &panel.title {
        text.append(t.as_str());
        let chars = chars_of(t.as_str());
        len = chars.len();
    }
    let rule: usize = if within > len {
        within - len
    } else {
        0
    };
    let line = repeated('\u{2500}', rule);
    assert(line@ =~= bar(inside(*panel) - title_of(*panel).len()));
    text.append(line.as_str());
    text.push('\u{2510}');
    assert(text@ =~= seq!['\u{250c}'] + title_of(*panel) + bar(
        inside(*panel) - title_of(*panel).len(),
    ) + seq!['\u{2510}']);
    let width: usize = if panel.rect.columns > 65535 {
        65535
    } else {
        panel.rect.columns as usize
    };
    let cut = fit_to(text.as_str(), width);
    let mut row: Vec<Span> = Vec::new();
    row.push(styled(cut, style));
    assert(spans_view(row@) =~= top_line(*panel));
    row
}

fn bottom_row(panel: &PanelView, style: Style, within: usize) -> (row: Vec<Span>)
    requires
        style == frame_look(*panel),
        within == inside(*panel),
    ensures
        spans_view(row@) == bottom_line(*panel),
{
    let mut text = String::new();
    text.push('\u{2514}');
    let line = repeated('\u{2500}', within);
    assert(line@ =~= bar(inside(*panel)));
    text.append(line.as_str());
    text.push('\u{2518}');
    assert(text@ =~= seq!['\u{2514}'] + bar(inside(*panel)) + seq!['\u{2518}']);
    let mut row: Vec<Span> = Vec::new();
    row.push(styled(text, style));
    assert(spans_view(row@) =~= bottom_line(*panel));
    row
}

/// One panel as rows, each exactly as wide as the panel. A picture is only
/// named.
pub fn panel_rows(panel: &PanelView) -> (rows: Vec<Vec<Span>>)
    ensures
        lines_view(rows@) == panel_lines(*panel),
{
    let w: usize = panel.rect.columns as usize;
    let h: u32 = panel.rect.rows;
    let border = panel.rect.columns >= 2 && h >= 2;
    let within: usize = if border {
        w - 2
    } else {
        w
    };
    let style = if panel.focus {
        Style::color(Color::White)
    } else {
        Style::color(Color::DarkGray)
    };
    let lines = body_lines(&panel.content);
    let ghost text = body(panel.content);
    let ghost goal = panel_lines(*panel);
    let n: usize = lines.len();
    let mut out: Vec<Vec<Span>> = Vec::new();
    let mut i: u32 = 0;
    while i < h
        invariant
            i <= h == panel.rect.rows,
            border == framed(*panel),
            within == inside(*panel),
            style == frame_look(*panel),
            n == lines@.len(),
            lines_view(lines@) == text,
            text == body(panel.content),
            goal == panel_lines(*panel),
            lines_view(out@) =~= goal.take(i as int),
        decreases h - i,
    {
        let ghost before = out@;
        let row = if border && i == 0 {
            top_row(panel, style, within)
        } else if border && i == h - 1 {
            bottom_row(panel, style, within)
        } else {
            let at: u32 = if border {
                i - 1
            } else {
                i
            };
            let mut row: Vec<Span> = Vec::new();
            if border {
                row.push(side_span(style));
            }
            let ghost head = row@;
            assert(spans_view(head) =~= if border {
                seq![side(*panel)]
            } else {
                Seq::empty()
            });
            if (at as u64) < n as u64 {
                assert(text[at as int] == spans_view(lines@[at as int]@));
                push_padded(&mut row, &lines[at as usize], within);
            } else {
                let empty: Vec<Span> = Vec::new();
                assert(spans_view(empty@) =~= Seq::<SpanView>::empty());
                push_padded(&mut row, &empty, within);
            }
            let ghost so_far = row@;
            if border {
                row.push(side_span(style));
                assert(spans_view(row@) =~= spans_view(so_far).push(side(*panel)));
            }
            assert(spans_view(row@) =~= inner_line(*panel, at as int));
            row
        };
        assert(spans_view(row@) == goal[i as int]);
        out.push(row);
        assert(lines_view(out@) =~= lines_view(before).push(goal[i as int]));
        i = i + 1;
    }
    assert(goal.take(i as int) =~= goal);
    out
}

/// A row of exactly `width` cells, with `patch` over it from `at` on.
pub open spec fn spliced_cells(
    line: Seq<SpanView>,
    at: int,
    patch: Seq<SpanView>,
    width: int,
) -> Seq<Glyph> {
    let under = cells_of(line);
    let over = cells_of(patch);
    Seq::new(
        width as nat,
        |x: int|
            if at <= x < at + over.len() {
                over[x - at]
            } else if x < under.len() {
                under[x]
            } else {
                (' ', unstyled())
            },
    )
}

/// Writes `patch` over a row, keeping the style of what it does not cover, and
/// the row exactly `width` wide.
pub fn splice(line: &Vec<Span>, at: u64, patch: &Vec<Span>, width: u16) -> (out: Vec<Span>)
    ensures
        spans_view(out@) == runs(
            spliced_cells(spans_view(line@), at as int, spans_view(patch@), width as int),
        ),
{
    let under = flatten(line);
    let over = flatten(patch);
    let ghost goal = spliced_cells(
        spans_view(line@),
        at as int,
        spans_view(patch@),
        width as int,
    );
    let n: usize = under.len();
    let m: usize = over.len();
    let mut cells: Vec<Glyph> = Vec::new();
    let mut x: u16 = 0;
    while x < width
        invariant
            x <= width,
            n == under@.len(),
            m == over@.len(),
            under@ == cells_of(spans_view(line@)),
            over@ == cells_of(spans_view(patch@)),
            goal == spliced_cells(
                spans_view(line@),
                at as int,
                spans_view(patch@),
                width as int,
            ),
            cells@ =~= goal.take(x as int),
        decreases width - x,
    {
        let c: u64 = x as u64;
        let glyph = if c >= at && ((c - at) as u128) < m as u128 {
            over[(c - at) as usize]
        } else if (x as usize) < n {
            under[x as usize]
        } else {
            (' ', Style::default())
        };
        assert(glyph == goal[x as int]);
        cells.push(glyph);
        x = x + 1;
    }
    assert(cells@ =~= goal);
    group(&cells)
}

/// Rows with one panel over them, as far as there are rows.
pub open spec fn with_panel(
    lines: Seq<Seq<SpanView>>,
    panel: PanelView,
    width: int,
) -> Seq<Seq<SpanView>> {
    let rows = panel_lines(panel);
    let top = panel.rect.row as int;
    Seq::new(
        lines.len(),
        |y: int|
            if top <= y < top + rows.len() {
                runs(spliced_cells(lines[y], GUTTER + panel.rect.column, rows[y - top], width))
            } else {
                lines[y]
            },
    )
}

/// Rows with the first `n` panels over them.
pub open spec fn with_panels(
    lines: Seq<Seq<SpanView>>,
    panels: Seq<PanelView>,
    width: int,
    n: int,
) -> Seq<Seq<SpanView>>
    decreases n,
{
    if n <= 0 {
        lines
    } else {
        with_panel(with_panels(lines, panels, width, n - 1), panels[n - 1], width)
    }
}

/// Draws every panel over the rows beneath it.
pub fn overlay_panels(out: &mut Vec<Vec<Span>>, panels: &Vec<PanelView>, width: u16)
    ensures
        lines_view(final(out)@) == with_panels(
            lines_view(old(out)@),
            panels@,
            width as int,
            panels@.len() as int,
        ),
{
    let ghost start = lines_view(out@);
    let rows_out: usize = out.len();
    let n: usize = panels.len();
    let mut i: usize = 0;
    while i < n
        invariant
            i <= n == panels@.len(),
            out@.len() == rows_out,
            lines_view(out@) == with_panels(start, panels@, width as int, i as int),
        decreases n - i,
    {
        let panel = &panels[i];
        let rows = panel_rows(panel);
        let ghost before = lines_view(out@);
        let ghost next = with_panels(start, panels@, width as int, i as int + 1);
        let ghost drawn = panel_lines(*panel);
        assert(next == with_panel(before, *panel, width as int));
        let top: u64 = panel.rect.row as u64;
        let at: u64 = GUTTER as u64 + panel.rect.column as u64;
        let m: usize = rows.len();
        let mut k: usize = 0;
        while k < m && top as u128 + (k as u128) < rows_out as u128
            invariant
                k <= m == rows@.len(),
                top == panel.rect.row,
                at == GUTTER + panel.rect.column,
                out@.len() == rows_out == before.len(),
                lines_view(rows@) == drawn,
                drawn == panel_lines(*panel),
                next == with_panel(before, *panel, width as int),
                forall|y: int|
                    0 <= y < rows_out && top <= y < top + k ==> spans_view(#[trigger] out@[y]@)
                        == next[y],
                forall|y: int|
                    0 <= y < rows_out && !(top <= y < top + k) ==> spans_view(
                        #[trigger] out@[y]@,
                    ) == before[y],
            decreases m - k,
        {
            let y: usize = (top as u128 + k as u128) as usize;
            assert(spans_view(out@[y as int]@) == before[y as int]);
            assert(spans_view(rows@[k as int]@) == drawn[k as int]);
            let line = splice(&out[y], at, &rows[k], width);
            assert(spans_view(line@) == next[y as int]);
            out.set(y, line);
            k = k + 1;
        }
        assert(lines_view(out@) =~= next);
        i = i + 1;
    }
}

proof fn lemma_cells_of_two(a: Seq<SpanView>, b: Seq<SpanView>)
    ensures
        cells_of(a + b) == cells_of(a) + cells_of(b),
    decreases b.len(),
{
    if b.len() == 0 {
        assert(a + b =~= a);
        assert(cells_of(a) + cells_of(b) =~= cells_of(a));
    } else {
        assert((a + b).drop_last() =~= a + b.drop_last());
        lemma_cells_of_two(a, b.drop_last());
        let last = painted(b.last().text, b.last().style);
        assert(cells_of(a) + (cells_of(b.drop_last()) + last) =~= cells_of(a) + cells_of(
            b.drop_last(),
        ) + last);
    }
}

proof fn lemma_cells_of_one(s: SpanView)
    ensures
        cells_of(seq![s]) == painted(s.text, s.style),
{
    assert(seq![s].drop_last() =~= Seq::<SpanView>::empty());
    assert(seq![s].last() == s);
    assert(cells_of(Seq::<SpanView>::empty()) =~= Seq::<Glyph>::empty());
    assert(cells_of(seq![s]) == cells_of(seq![s].drop_last()) + painted(s.text, s.style));
    assert(Seq::<Glyph>::empty() + painted(s.text, s.style) =~= painted(s.text, s.style));
}

proof fn lemma_clipped_cells(line: Seq<SpanView>, width: int, n: int)
    requires
        width >= 0,
        0 <= n <= line.len(),
    ensures
        cells_of(clipped(line, width, n)) == (if cells_of(line.take(n)).len() > width {
            cells_of(line.take(n)).take(width)
        } else {
            cells_of(line.take(n))
        }),
    decreases n,
{
    if n == 0 {
        assert(line.take(0) =~= Seq::<SpanView>::empty());
    } else {
        lemma_clipped_cells(line, width, n - 1);
        let before = clipped(line, width, n - 1);
        let all = cells_of(line.take(n - 1));
        let s = line[n - 1];
        let left = width - cells_of(before).len();
        assert(line.take(n).drop_last() =~= line.take(n - 1));
        assert(line.take(n).last() == s);
        let whole = all + painted(s.text, s.style);
        assert(cells_of(line.take(n)) == whole);
        if left <= 0 {
            assert(cells_of(before) =~= whole.take(width));
        } else {
            let cut = SpanView {
                text: if s.text.len() > left {
                    s.text.take(left)
                } else {
                    s.text
                },
                style: s.style,
            };
            assert(before.push(cut).drop_last() =~= before);
            assert(cells_of(before.push(cut)) == cells_of(before) + painted(cut.text, cut.style));
            if whole.len() > width {
                assert(cells_of(before) + painted(cut.text, cut.style) =~= whole.take(width));
            } else {
                assert(cells_of(before) + painted(cut.text, cut.style) =~= whole);
            }
        }
    }
}

/// A line that is cut or padded shows its own cells from the left, and blanks
/// after them.
pub proof fn a_padded_line_shows_its_text(line: Seq<SpanView>, width: int, x: int)
    requires
        0 <= x < width,
    ensures
        cells_of(padded_line(line, width)).len() == width,
        x < cells_of(line).len() ==> cells_of(padded_line(line, width))[x] == cells_of(line)[x],
        x >= cells_of(line).len() ==> cells_of(padded_line(line, width))[x] == (' ', unstyled()),
{
    let c = clipped(line, width, line.len() as int);
    lemma_clipped_cells(line, width, line.len() as int);
    assert(line.take(line.len() as int) =~= line);
    let pad = SpanView { text: blank(width - cells_of(c).len()), style: unstyled() };
    assert(c.push(pad).drop_last() =~= c);
    assert(cells_of(c.push(pad)) == cells_of(c) + painted(pad.text, pad.style));
}

/// A panel is as large as its rectangle: it has its rows, and every row has its
/// columns. A terminal counts no more columns than it can have, so the title's
/// row is no wider than that.
pub proof fn a_panel_fills_its_rectangle(panel: PanelView, i: int)
    requires
        0 <= i < panel.rect.rows,
        panel.rect.columns <= 65535,
    ensures
        panel_lines(panel).len() == panel.rect.rows,
        cells_of(panel_lines(panel)[i]).len() == panel.rect.columns,
{
    let w = inside(panel);
    let row = panel_lines(panel)[i];
    if framed(panel) && i == 0 {
        lemma_cells_of_one(top_line(panel)[0]);
        assert(top_line(panel) =~= seq![top_line(panel)[0]]);
    } else if framed(panel) && i == panel.rect.rows - 1 {
        lemma_cells_of_one(bottom_line(panel)[0]);
        assert(bottom_line(panel) =~= seq![bottom_line(panel)[0]]);
    } else {
        let at = if framed(panel) {
            i - 1
        } else {
            i
        };
        let lines = body(panel.content);
        let content = if at < lines.len() {
            lines[at]
        } else {
            Seq::empty()
        };
        a_padded_line_is_as_wide_as_asked(content, w);
        if framed(panel) {
            lemma_cells_of_one(side(panel));
            lemma_cells_of_two(seq![side(panel)], padded_line(content, w));
            lemma_cells_of_two(
                seq![side(panel)] + padded_line(content, w),
                seq![side(panel)],
            );
        }
    }
}

/// A panel with a frame shows its lines inside of it: the first below the top,
/// each one column in, between the two sides.
pub proof fn a_framed_panel_shows_its_lines_inside(panel: PanelView, i: int, x: int)
    requires
        panel.rect.columns >= 2,
        panel.rect.rows >= 2,
        0 <= i < panel.rect.rows - 2,
        0 <= x < panel.rect.columns - 2,
    ensures
        ({
            let row = cells_of(panel_lines(panel)[i + 1]);
            &&& row.len() == panel.rect.columns
            &&& row[0].0 == '\u{2502}'
            &&& row.last().0 == '\u{2502}'
            &&& i < body(panel.content).len() && x < cells_of(body(panel.content)[i]).len()
                ==> row[x + 1] == cells_of(body(panel.content)[i])[x]
            &&& i < body(panel.content).len() && x >= cells_of(body(panel.content)[i]).len()
                ==> row[x + 1].0 == ' '
            &&& i >= body(panel.content).len() ==> row[x + 1].0 == ' '
        }),
{
    let w = inside(panel);
    let lines = body(panel.content);
    let content = if i < lines.len() {
        lines[i]
    } else {
        Seq::empty()
    };
    assert(panel_lines(panel)[i + 1] == inner_line(panel, i));
    a_padded_line_shows_its_text(content, w, x);
    lemma_cells_of_one(side(panel));
    lemma_cells_of_two(seq![side(panel)], padded_line(content, w));
    lemma_cells_of_two(seq![side(panel)] + padded_line(content, w), seq![side(panel)]);
    assert(cells_of(Seq::<SpanView>::empty()).len() == 0);
}

/// A panel without room for a frame shows its lines from its first row and
/// column on.
pub proof fn a_small_panel_shows_its_lines(panel: PanelView, i: int, x: int)
    requires
        panel.rect.columns < 2 || panel.rect.rows < 2,
        0 <= i < panel.rect.rows,
        0 <= x < panel.rect.columns,
        i < body(panel.content).len(),
        x < cells_of(body(panel.content)[i]).len(),
    ensures
        cells_of(panel_lines(panel)[i])[x] == cells_of(body(panel.content)[i])[x],
{
    a_padded_line_shows_its_text(body(panel.content)[i], inside(panel), x);
}

/// The text of a panel is drawn as it was given, stretch by stretch.
pub proof fn a_panel_shows_the_text_it_was_given(lines: Vec<Vec<PanelSpan>>, i: int, j: int)
    requires
        0 <= i < lines@.len(),
        0 <= j < lines@[i]@.len(),
    ensures
        body(PanelContent::Lines(lines)).len() == lines@.len(),
        body(PanelContent::Lines(lines))[i].len() == lines@[i]@.len(),
        body(PanelContent::Lines(lines))[i][j].text == lines@[i]@[j].text@,
        lines@[i]@[j].role == PanelRole::Warning ==> body(
            PanelContent::Lines(lines),
        )[i][j].style.fg == Some(Color::Red),
        lines@[i]@[j].role == PanelRole::Key ==> body(PanelContent::Lines(lines))[i][j].style.fg
            == Some(Color::Yellow),
        lines@[i]@[j].role == PanelRole::Accent ==> body(PanelContent::Lines(lines))[i][j].style.fg
            == Some(Color::White),
        lines@[i]@[j].role == PanelRole::Normal ==> body(PanelContent::Lines(lines))[i][j].style.fg
            == Some(Color::Gray),
        body(PanelContent::Lines(lines))[i][j].style.bold == (lines@[i]@[j].role == PanelRole::Key
            || lines@[i]@[j].role == PanelRole::Accent),
{
}

/// A panel covers its own rectangle, to the right of the gutter, and leaves
/// everything else as it was.
pub proof fn a_panel_covers_its_rectangle(
    lines: Seq<Seq<SpanView>>,
    panel: PanelView,
    width: int,
    x: int,
    y: int,
)
    requires
        0 <= x < width,
        0 <= y < lines.len(),
        cells_of(lines[y]).len() == width,
        panel.rect.columns <= 65535,
    ensures
        ({
            let after = with_panel(lines, panel, width);
            let dx = x - (GUTTER + panel.rect.column);
            let dy = y - panel.rect.row;
            &&& after.len() == lines.len()
            &&& cells_of(after[y]).len() == width
            &&& 0 <= dy < panel.rect.rows && 0 <= dx < panel.rect.columns ==> cells_of(after[y])[x]
                == cells_of(panel_lines(panel)[dy])[dx]
            &&& !(0 <= dy < panel.rect.rows && 0 <= dx < panel.rect.columns) ==> cells_of(
                after[y],
            )[x] == cells_of(lines[y])[x]
        }),
{
    let dy = y - panel.rect.row;
    if 0 <= dy < panel.rect.rows {
        a_panel_fills_its_rectangle(panel, dy);
        let cells = spliced_cells(
            lines[y],
            GUTTER + panel.rect.column,
            panel_lines(panel)[dy],
            width,
        );
        runs_draw_their_cells(cells);
    }
}

/// The frame of a panel has its four corners, and its title after the first;
/// a focused panel has the brighter one.
pub proof fn a_frame_carries_its_title(panel: PanelView)
    requires
        panel.rect.columns >= 2,
        panel.rect.rows >= 2,
        panel.rect.columns <= 65535,
        title_of(panel).len() <= panel.rect.columns - 2,
    ensures
        ({
            let w = panel.rect.columns as int;
            let h = panel.rect.rows as int;
            let t = title_of(panel);
            let top = panel_lines(panel)[0][0].text;
            let bottom = panel_lines(panel)[h - 1][0].text;
            &&& top.len() == w
            &&& bottom.len() == w
            &&& top[0] == '\u{250c}'
            &&& top[w - 1] == '\u{2510}'
            &&& bottom[0] == '\u{2514}'
            &&& bottom[w - 1] == '\u{2518}'
            &&& top.subrange(1, 1 + t.len() as int) == t
            &&& forall|x: int| 1 + t.len() <= x < w - 1 ==> #[trigger] top[x] == '\u{2500}'
            &&& forall|x: int| 1 <= x < w - 1 ==> #[trigger] bottom[x] == '\u{2500}'
            &&& panel_lines(panel)[0][0].style.fg == (if panel.focus {
                Some(Color::White)
            } else {
                Some(Color::DarkGray)
            })
        }),
{
    let t = title_of(panel);
    let top = panel_lines(panel)[0][0].text;
    assert(top.subrange(1, 1 + t.len() as int) =~= t);
}

} // verus!
