//! Styled text: the cells of a terminal row, and the runs that they are
//! written as.
use vstd::prelude::*;

use crate::text::chars_of;

verus! {

/// A colour of the terminal.
#[derive(Clone, Copy, Debug, PartialEq, Eq, Structural)]
pub enum Color {
    White,
    Gray,
    DarkGray,
    Yellow,
    Red,
    Blue,
    Cyan,
    Green,
    Indexed(u8),
    Rgb(u8, u8, u8),
}

/// How a character is drawn.
#[derive(Clone, Copy, Debug, PartialEq, Eq, Structural)]
pub struct Style {
    pub fg: Option<Color>,
    pub bg: Option<Color>,
    pub bold: bool,
    pub reversed: bool,
}

/// The style of unstyled text.
pub open spec fn unstyled() -> Style {
    Style { fg: None, bg: None, bold: false, reversed: false }
}

/// Text of one colour.
pub open spec fn coloured(c: Color) -> Style {
    Style { fg: Some(c), bg: None, bold: false, reversed: false }
}

impl Default for Style {
    fn default() -> (s: Self)
        ensures
            s == unstyled(),
    {
        Style { fg: None, bg: None, bold: false, reversed: false }
    }
}

impl Style {
    /// Text of one colour.
    pub fn color(c: Color) -> (s: Self)
        ensures
            s == coloured(c),
    {
        Style { fg: Some(c), bg: None, bold: false, reversed: false }
    }

    pub fn bold(self) -> (s: Self)
        ensures
            s == (Style { bold: true, ..self }),
    {
        Style { fg: self.fg, bg: self.bg, bold: true, reversed: self.reversed }
    }

    pub fn reversed(self) -> (s: Self)
        ensures
            s == (Style { reversed: true, ..self }),
    {
        Style { fg: self.fg, bg: self.bg, bold: self.bold, reversed: true }
    }
}

/// One character of a row, and how it is drawn.
pub type Glyph = (char, Style);

/// A stretch of text in one style.
#[derive(Debug, PartialEq, Eq)]
pub struct Span {
    pub text: String,
    pub style: Style,
}

/// The contents of a [`Span`].
pub struct SpanView {
    pub text: Seq<char>,
    pub style: Style,
}

impl View for Span {
    type V = SpanView;

    open spec fn view(&self) -> SpanView {
        SpanView { text: self.text@, style: self.style }
    }
}

impl Clone for Span {
    fn clone(&self) -> (c: Self)
        ensures
            c@ == self@,
    {
        Span { text: self.text.clone(), style: self.style }
    }
}

/// Text in one style.
pub fn styled(text: String, style: Style) -> (s: Span)
    ensures
        s@ == (SpanView { text: text@, style }),
{
    Span { text, style }
}

/// Text in no style.
pub fn raw(text: String) -> (s: Span)
    ensures
        s@ == (SpanView { text: text@, style: unstyled() }),
{
    Span { text, style: Style::default() }
}

/// The contents of a list of spans.
pub open spec fn spans_view(spans: Seq<Span>) -> Seq<SpanView> {
    Seq::new(spans.len(), |i: int| spans[i]@)
}

/// The cells of text in one style.
pub open spec fn painted(text: Seq<char>, style: Style) -> Seq<Glyph> {
    Seq::new(text.len(), |i: int| (text[i], style))
}

/// The cells of a list of spans.
pub open spec fn cells_of(spans: Seq<SpanView>) -> Seq<Glyph>
    decreases spans.len(),
{
    if spans.len() == 0 {
        Seq::empty()
    } else {
        cells_of(spans.drop_last()) + painted(spans.last().text, spans.last().style)
    }
}

/// The characters of cells.
pub open spec fn chars_in(cells: Seq<Glyph>) -> Seq<char> {
    Seq::new(cells.len(), |i: int| cells[i].0)
}

/// The fewest spans that draw the cells: neighbours in one style share one.
pub open spec fn runs(cells: Seq<Glyph>) -> Seq<SpanView>
    decreases cells.len(),
{
    if cells.len() == 0 {
        Seq::empty()
    } else {
        let done = runs(cells.drop_last());
        let cell = cells.last();
        if done.len() > 0 && done.last().style == cell.1 {
            done.drop_last().push(
                SpanView { text: done.last().text.push(cell.0), style: cell.1 },
            )
        } else {
            done.push(SpanView { text: seq![cell.0], style: cell.1 })
        }
    }
}

/// Writing cells as runs loses nothing, and no two neighbouring runs could be
/// one.
pub proof fn runs_draw_their_cells(cells: Seq<Glyph>)
    ensures
        cells_of(runs(cells)) == cells,
        forall|i: int| 0 <= i < runs(cells).len() ==> (#[trigger] runs(cells)[i]).text.len() > 0,
        forall|i: int, j: int|
            0 <= i && j == i + 1 && j < runs(cells).len() ==> (#[trigger] runs(cells)[i]).style != (
            #[trigger] runs(cells)[j]).style,
    decreases cells.len(),
{
    if cells.len() > 0 {
        let before = cells.drop_last();
        let cell = cells.last();
        runs_draw_their_cells(before);
        let done = runs(before);
        let all = runs(cells);
        if done.len() > 0 && done.last().style == cell.1 {
            let grown = done.last().text.push(cell.0);
            assert(all.drop_last() =~= done.drop_last());
            assert(painted(grown, cell.1) =~= painted(done.last().text, cell.1).push(cell));
            assert(all.last() == (SpanView { text: grown, style: cell.1 }));
            assert(cells_of(done) == cells_of(done.drop_last()) + painted(
                done.last().text,
                cell.1,
            ));
            assert(cells_of(all) =~= cells_of(done).push(cell));
            assert(cells =~= before.push(cell));
        } else {
            assert(all.drop_last() =~= done);
            assert(painted(seq![cell.0], cell.1) =~= seq![cell]);
            assert(cells_of(all) =~= cells);
        }
    }
}

/// Writes cells as runs.
pub fn group(cells: &Vec<Glyph>) -> (spans: Vec<Span>)
    ensures
        spans_view(spans@) == runs(cells@),
{
    let mut spans: Vec<Span> = Vec::new();
    let n: usize = cells.len();
    let mut i: usize = 0;
    assert(spans_view(spans@) =~= runs(cells@.take(0)));
    while i < n
        invariant
            i <= n == cells@.len(),
            spans_view(spans@) == runs(cells@.take(i as int)),
        decreases n - i,
    {
        let cell = cells[i];
        let ghost before = spans@;
        proof {
            assert(cells@.take(i as int + 1).drop_last() =~= cells@.take(i as int));
            assert(cells@.take(i as int + 1).last() == cell);
            assert(spans_view(before).len() == before.len());
        }
        let m: usize = spans.len();
        if m > 0 && spans[m - 1].style == cell.1 {
            assert(spans_view(before).last() == before[m - 1]@);
            spans[m - 1].text.push(cell.0);
            assert(spans_view(spans@) =~= spans_view(before).drop_last().push(
                SpanView { text: before[m - 1].text@.push(cell.0), style: cell.1 },
            ));
        } else {
            let mut text = String::new();
            text.push(cell.0);
            assert(text@ =~= seq![cell.0]);
            if m > 0 {
                assert(spans_view(before).last() == before[m - 1]@);
            }
            spans.push(Span { text, style: cell.1 });
            assert(spans_view(spans@) =~= spans_view(before).push(
                SpanView { text: seq![cell.0], style: cell.1 },
            ));
        }
        i = i + 1;
    }
    assert(cells@.take(i as int) =~= cells@);
    spans
}

/// Appends the cells of text in one style.
pub fn paint_text(cells: &mut Vec<Glyph>, text: &str, style: Style)
    ensures
        final(cells)@ == old(cells)@ + painted(text@, style),
{
    let chars = chars_of(text);
    let ghost before = cells@;
    let n: usize = chars.len();
    let mut i: usize = 0;
    while i < n
        invariant
            i <= n == chars@.len(),
            chars@ == text@,
            cells@ =~= before + painted(text@.take(i as int), style),
        decreases n - i,
    {
        cells.push((chars[i], style));
        i = i + 1;
    }
    assert(text@.take(i as int) =~= text@);
}

/// The cells of a row.
pub fn flatten(spans: &Vec<Span>) -> (cells: Vec<Glyph>)
    ensures
        cells@ == cells_of(spans_view(spans@)),
{
    let mut cells: Vec<Glyph> = Vec::new();
    let n: usize = spans.len();
    let ghost views = spans_view(spans@);
    let mut i: usize = 0;
    assert(views.take(0) =~= Seq::<SpanView>::empty());
    while i < n
        invariant
            i <= n == spans@.len(),
            views == spans_view(spans@),
            cells@ == cells_of(views.take(i as int)),
        decreases n - i,
    {
        proof {
            assert(views.take(i as int + 1).drop_last() =~= views.take(i as int));
            assert(views.take(i as int + 1).last() == spans@[i as int]@);
        }
        paint_text(&mut cells, spans[i].text.as_str(), spans[i].style);
        i = i + 1;
    }
    assert(views.take(i as int) =~= views);
    cells
}

/// Text without a style has no colour and no mark, and text of one colour has
/// nothing else.
pub proof fn plain_text_is_plain(c: Color)
    ensures
        unstyled().fg is None,
        unstyled().bg is None,
        !unstyled().bold,
        !unstyled().reversed,
        coloured(c).fg == Some(c),
        coloured(c).bg is None,
        !coloured(c).bold,
        !coloured(c).reversed,
{
}

/// The cells of a row are its characters in their order, each in the style of
/// its stretch.
pub proof fn a_stretch_keeps_its_characters(before: Seq<SpanView>, s: SpanView, i: int)
    requires
        0 <= i < s.text.len(),
    ensures
        cells_of(before.push(s)).len() == cells_of(before).len() + s.text.len(),
        cells_of(before.push(s))[cells_of(before).len() + i].0 == s.text[i],
        cells_of(before.push(s))[cells_of(before).len() + i].1 == s.style,
        cells_of(before.push(s)).take(cells_of(before).len() as int) == cells_of(before),
        chars_in(cells_of(before.push(s))) == chars_in(cells_of(before)) + s.text,
{
    assert(before.push(s).drop_last() =~= before);
    assert(cells_of(before.push(s)) == cells_of(before) + painted(s.text, s.style));
    assert(cells_of(before.push(s)).take(cells_of(before).len() as int) =~= cells_of(before));
    assert(chars_in(cells_of(before.push(s))) =~= chars_in(cells_of(before)) + s.text);
}

} // verus!
