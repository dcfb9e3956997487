//! The preview in a terminal: a frame resampled into rows of cells, and
//! encoded for the protocol that the terminal has.
use vstd::prelude::*;
use vstd::string::*;

use crate::model::Resolution;
use crate::present::fit::Quad;
use crate::present::fit::equal_shapes_fill_the_surface;
use crate::present::fit::lemma_samples;
use crate::present::fit::lemma_u32_product;
use crate::present::fit::letterbox;
use crate::present::fit::letterbox_view;
use crate::present::fit::samples;
use crate::present::fit::sampling_keeps_the_order;
use crate::present::presenter::Presentation;
use crate::present::presenter::nearest;
use crate::text::begins_with;
use crate::text::lowered;
use crate::text::same_text;
use crate::tui::base64::base64;
use crate::tui::base64::encoded;
use crate::tui::bytes::ascii;
use crate::tui::bytes::number;
use crate::tui::bytes::push_number;
use crate::tui::bytes::push_text;
use crate::tui::image::Image;
use crate::tui::image::pixel_in;
use crate::tui::sixel::sixel;
use crate::tui::sixel::sixel_bytes;
use crate::tui::style::Color;
use crate::tui::style::Glyph;
use crate::tui::style::Span;
use crate::tui::style::SpanView;
use crate::tui::style::Style;
use crate::tui::style::cells_of;
use crate::tui::style::group;
use crate::tui::style::runs;
use crate::tui::style::runs_draw_their_cells;
use crate::tui::style::spans_view;

verus! {

/// How the terminal is asked to draw a picture.
#[derive(Clone, Copy, Debug, PartialEq, Eq, Structural)]
pub enum Protocol {
    /// Kitty graphics: the bytes of the picture, placed at the cursor.
    Kitty,
    /// Sixel, in a palette made for the picture.
    Sixel,
    /// Half blocks in full colour, which every terminal draws.
    Blocks,
}

impl Protocol {
    /// The name of a protocol.
    pub open spec fn called(self) -> Seq<char> {
        match self {
            Protocol::Kitty => "kitty"@,
            Protocol::Sixel => "sixel"@,
            Protocol::Blocks => "blocks"@,
        }
    }

    /// The protocol of a name.
    pub fn parse(name: &str) -> (p: Option<Self>)
        ensures
            match p {
                Some(q) => name@ == q.called(),
                None => name@ != "kitty"@ && name@ != "sixel"@ && name@ != "blocks"@,
            },
    {
        if same_text(name, "kitty") {
            Some(Protocol::Kitty)
        } else if same_text(name, "sixel") {
            Some(Protocol::Sixel)
        } else if same_text(name, "blocks") {
            Some(Protocol::Blocks)
        } else {
            None
        }
    }

    pub fn name(self) -> (s: String)
        ensures
            s@ == self.called(),
    {
        match self {
            Protocol::Kitty => "kitty".to_owned(),
            Protocol::Sixel => "sixel".to_owned(),
            Protocol::Blocks => "blocks".to_owned(),
        }
    }

    /// The pixels of one cell: half blocks have two, one above the other, and
    /// for the others the terminal decides.
    pub open spec fn pixels_of(self, measured: Cell) -> Cell {
        match self {
            Protocol::Blocks => Cell { width: 1, height: 2 },
            _ => measured,
        }
    }

    pub fn cell(self, measured: Cell) -> (c: Cell)
        ensures
            c == self.pixels_of(measured),
    {
        match self {
            Protocol::Blocks => Cell { width: 1, height: 2 },
            _ => measured,
        }
    }
}

/// The three protocols have different names, so a name names one protocol.
pub proof fn a_name_is_one_protocol(a: Protocol, b: Protocol)
    requires
        a.called() == b.called(),
    ensures
        a == b,
{
    reveal_strlit("kitty");
    reveal_strlit("sixel");
    reveal_strlit("blocks");
    assert("kitty"@[0] == 'k');
    assert("sixel"@[0] == 's');
    assert("blocks"@[0] == 'b');
}

/// A cell of the terminal, in pixels.
#[derive(Clone, Copy, Debug, PartialEq, Eq, Structural)]
pub struct Cell {
    pub width: u16,
    pub height: u16,
}

impl Default for Cell {
    /// What a terminal that does not answer is taken to have.
    fn default() -> (c: Self)
        ensures
            c == (Cell { width: 10, height: 20 }),
    {
        Cell { width: 10, height: 20 }
    }
}

/// The size of a cell, from that of the window: what the terminal reports, or
/// the default where it reports nothing.
pub fn measured_cell(columns: u16, rows: u16, width: u16, height: u16) -> (c: Cell)
    ensures
        c == if columns == 0 || rows == 0 || width == 0 || height == 0 {
            Cell { width: 10, height: 20 }
        } else {
            Cell { width: width / columns, height: height / rows }
        },
{
    if columns == 0 || rows == 0 || width == 0 || height == 0 {
        Cell::default()
    } else {
        Cell { width: width / columns, height: height / rows }
    }
}

/// How tall the preview is asked to be.
#[derive(Clone, Copy, Debug, PartialEq, Eq, Structural)]
pub enum Height {
    Off,
    Rows(u16),
    Percent(u8),
    /// As tall as the picture can fill.
    Auto,
}

impl Default for Height {
    fn default() -> (h: Self)
        ensures
            h == Height::Off,
    {
        Height::Off
    }
}

/// The most of the screen that a preview may take, in percent.
pub const MAX_SCREEN_PERCENT: u16 = 75;

/// The smaller of two.
pub open spec fn least(a: int, b: int) -> int {
    if a < b {
        a
    } else {
        b
    }
}

/// The most rows that a preview may take.
pub open spec fn cap_of(screen: u16) -> int {
    screen * MAX_SCREEN_PERCENT / 100
}

/// The rows that a preview gets on a screen, where the picture could fill
/// `natural`.
pub open spec fn rows_of(h: Height, screen: u16, natural: u16) -> int {
    match h {
        Height::Off => 0,
        Height::Rows(n) => least(n as int, cap_of(screen)),
        Height::Percent(p) => least(screen * p / 100, cap_of(screen)),
        Height::Auto => least(natural as int, cap_of(screen)),
    }
}

impl Height {
    pub fn rows(self, screen: u16, natural: u16) -> (r: u16)
        ensures
            r == rows_of(self, screen, natural),
    {
        let cap: u16 = (screen as u32 * MAX_SCREEN_PERCENT as u32 / 100) as u16;
        let wanted: u16 = match self {
            Height::Off => 0,
            Height::Rows(n) => n,
            Height::Percent(p) => {
                assert(screen * p <= 65535 * 255) by (nonlinear_arith)
                    requires
                        screen <= 65535,
                        p <= 255,
                ;
                let share: u32 = screen as u32 * p as u32 / 100;
                if share < cap as u32 {
                    share as u16
                } else {
                    cap
                }
            },
            Height::Auto => natural,
        };
        if wanted < cap {
            wanted
        } else {
            cap
        }
    }
}

/// The timeline keeps a quarter of the screen, whatever the preview asks for.
pub proof fn the_timeline_keeps_its_rows(h: Height, screen: u16, natural: u16)
    ensures
        0 <= rows_of(h, screen, natural) <= screen,
        4 * (screen - rows_of(h, screen, natural)) >= screen,
{
}

/// A number rounded up to whole units.
pub open spec fn ceiling(n: int, unit: int) -> int {
    (n + unit - 1) / unit
}

/// The rows that a picture of a shape fills across `columns` cells.
pub open spec fn natural_height(
    columns: u16,
    protocol: Protocol,
    cell: Cell,
    aspect: Resolution,
) -> int {
    let c = protocol.pixels_of(cell);
    if aspect.width == 0 || c.height == 0 {
        0
    } else {
        least(
            ceiling((columns * c.width) * aspect.height / aspect.width as int, c.height as int),
            65535,
        )
    }
}

pub fn natural_rows(columns: u16, protocol: Protocol, cell: Cell, aspect: Resolution) -> (rows: u16)
    ensures
        rows == natural_height(columns, protocol, cell, aspect),
{
    let c = protocol.cell(cell);
    if aspect.width == 0 || c.height == 0 {
        return 0;
    }
    assert(0 <= columns * c.width <= 65535 * 65535) by (nonlinear_arith)
        requires
            0 <= columns <= 65535,
            0 <= c.width <= 65535,
    ;
    let width: u64 = columns as u64 * c.width as u64;
    let ah: u32 = aspect.height;
    assert(0 <= width * ah <= 65535 * 65535 * 0xffff_ffff) by (nonlinear_arith)
        requires
            0 <= width <= 65535 * 65535,
            0 <= ah <= 0xffff_ffff,
    ;
    let total: u64 = width * ah as u64;
    let aw: u64 = aspect.width as u64;
    assert(0 <= total / aw <= total) by (nonlinear_arith)
        requires
            aw >= 1,
            total >= 0,
    ;
    let height: u64 = total / aw;
    let unit: u64 = c.height as u64;
    let rows: u64 = (height + (unit - 1)) / unit;
    if rows > 65535 {
        65535
    } else {
        rows as u16
    }
}

/// The rows and columns that a preview is drawn in.
#[derive(Clone, Copy, Debug, PartialEq, Eq, Structural)]
pub struct Layout {
    pub columns: u16,
    pub rows: u16,
    pub protocol: Protocol,
    pub cell: Cell,
}

impl Layout {
    /// The pixels that the cells cover.
    pub open spec fn area(self) -> Resolution {
        let c = self.protocol.pixels_of(self.cell);
        Resolution {
            width: (self.columns * c.width) as u32,
            height: (self.rows * c.height) as u32,
        }
    }

    pub fn pixels(&self) -> (r: Resolution)
        ensures
            r == self.area(),
            r.width == self.columns * self.protocol.pixels_of(self.cell).width,
            r.height == self.rows * self.protocol.pixels_of(self.cell).height,
    {
        let c = self.protocol.cell(self.cell);
        let columns: u16 = self.columns;
        let rows: u16 = self.rows;
        assert(0 <= columns * c.width <= 65535 * 65535 && 0 <= rows * c.height <= 65535 * 65535)
            by (nonlinear_arith)
            requires
                0 <= columns <= 65535,
                0 <= c.width <= 65535,
                0 <= rows <= 65535,
                0 <= c.height <= 65535,
        ;
        Resolution {
            width: self.columns as u32 * c.width as u32,
            height: self.rows as u32 * c.height as u32,
        }
    }
}

/// An encoded preview.
#[derive(Debug, PartialEq, Eq)]
pub struct Band {
    /// The rows that it takes.
    pub rows: u16,
    /// Its characters, where it is drawn with them.
    pub cells: Vec<Vec<Span>>,
    /// Bytes to write at its top left corner, where it is drawn with those.
    pub escape: Option<Vec<u8>>,
    /// The picture that it shows.
    pub pixels_id: u64,
}

/// The contents of a [`Band`].
pub struct BandView {
    pub rows: u16,
    pub cells: Seq<Seq<SpanView>>,
    pub escape: Option<Seq<u8>>,
    pub pixels_id: u64,
}

/// The contents of rows of spans.
pub open spec fn lines_view(lines: Seq<Vec<Span>>) -> Seq<Seq<SpanView>> {
    Seq::new(lines.len(), |i: int| spans_view(lines[i]@))
}

impl View for Band {
    type V = BandView;

    open spec fn view(&self) -> BandView {
        BandView {
            rows: self.rows,
            cells: lines_view(self.cells@),
            escape: match self.escape {
                Some(b) => Some(b@),
                None => None,
            },
            pixels_id: self.pixels_id,
        }
    }
}

/// No preview at all.
pub open spec fn no_band() -> BandView {
    BandView { rows: 0, cells: Seq::empty(), escape: None, pixels_id: 0 }
}

impl Default for Band {
    fn default() -> (b: Self)
        ensures
            b@ == no_band(),
    {
        let b = Band { rows: 0, cells: Vec::new(), escape: None, pixels_id: 0 };
        assert(b@.cells =~= Seq::<Seq<SpanView>>::empty());
        b
    }
}

impl Band {
    pub fn is_empty(&self) -> (b: bool)
        ensures
            b == (self@.rows == 0),
    {
        self.rows == 0
    }
}

/// Whether text holds other text.
pub open spec fn holds(text: Seq<char>, part: Seq<char>) -> bool {
    exists|i: int| 0 <= i <= text.len() && begins_with(#[trigger] text.skip(i), part)
}

/// Whether text holds other text.
pub fn text_holds(text: &str, part: &str) -> (b: bool)
    ensures
        b == holds(text@, part@),
{
    let chars = crate::text::chars_of(text);
    let wanted = crate::text::chars_of(part);
    let n: usize = chars.len();
    let m: usize = wanted.len();
    let mut i: usize = 0;
    while i <= n
        invariant
            i <= n + 1,
            n < usize::MAX || i <= n,
            n == chars@.len(),
            m == wanted@.len(),
            chars@ == text@,
            wanted@ == part@,
            forall|k: int| 0 <= k < i ==> !begins_with(#[trigger] text@.skip(k), part@),
        decreases n + 1 - i,
    {
        let ghost rest = text@.skip(i as int);
        if m <= n - i {
            let mut k: usize = 0;
            while k < m && chars[i + k] == wanted[k]
                invariant
                    k <= m <= n - i,
                    i <= n,
                    n == chars@.len(),
                    m == wanted@.len(),
                    chars@ == text@,
                    wanted@ == part@,
                    rest == text@.skip(i as int),
                    forall|j: int| 0 <= j < k ==> rest[j] == part@[j],
                decreases m - k,
            {
                k = k + 1;
            }
            if k == m {
                assert(rest.take(m as int) =~= part@);
                assert(begins_with(rest, part@));
                return true;
            }
            assert(rest[k as int] != part@[k as int]);
            assert(!begins_with(rest, part@)) by {
                if begins_with(rest, part@) {
                    assert(rest.take(m as int)[k as int] == part@[k as int]);
                }
            }
        }
        if i == n {
            return false;
        }
        i = i + 1;
    }
    false
}

/// Text in lower case.
pub uninterp spec fn lowercase_of(text: Seq<char>) -> Seq<char>;

/// `str::to_lowercase`: the text in lower case. What that is of a character
/// beyond ASCII is named and not spelled out; ASCII text is lowered letter by
/// letter.
#[verifier::external_body]
fn lowercase(text: &str) -> (s: String)
    ensures
        s@ == lowercase_of(text@),
        (forall|i: int| 0 <= i < text@.len() ==> #[trigger] text@[i] < '\u{80}') ==> s@ == lowered(
            text@,
        ),
{
    text.to_lowercase()
}

/// The protocol of a terminal, from its environment in lower case.
pub open spec fn suggested(window: Seq<char>, term: Seq<char>, program: Seq<char>) -> Protocol {
    if window.len() > 0 || holds(term, "kitty"@) || holds(program, "kitty"@) || holds(
        program,
        "ghostty"@,
    ) || holds(program, "wezterm"@) {
        Protocol::Kitty
    } else if holds(term, "sixel"@) || holds(term, "foot"@) || holds(term, "mlterm"@) {
        Protocol::Sixel
    } else {
        Protocol::Blocks
    }
}

/// Which protocol an environment suggests: `window` is the identifier that
/// kitty gives its windows, `term` the name of the terminal and `program` that
/// of its program, both in lower case.
pub fn suggest(window: &str, term: &str, program: &str) -> (p: Protocol)
    ensures
        p == suggested(window@, term@, program@),
{
    let id = crate::text::chars_of(window);
    if id.len() > 0 || text_holds(term, "kitty") || text_holds(program, "kitty") || text_holds(
        program,
        "ghostty",
    ) || text_holds(program, "wezterm") {
        Protocol::Kitty
    } else if text_holds(term, "sixel") || text_holds(term, "foot") || text_holds(term, "mlterm") {
        Protocol::Sixel
    } else {
        Protocol::Blocks
    }
}

/// Which protocol a terminal gets, where nothing else is said. Case does not
/// matter.
pub fn detect(window: &str, term: &str, program: &str) -> (p: Protocol)
    ensures
        p == suggested(window@, lowercase_of(term@), lowercase_of(program@)),
{
    let t = lowercase(term);
    let p = lowercase(program);
    suggest(window, t.as_str(), p.as_str())
}

/// A pixel of a presentation, without its opacity.
pub open spec fn presented(pres: Presentation, x: int, y: int) -> (u8, u8, u8) {
    if pres.has_pixel(x, y) {
        let i = (y * pres.surface.width + x) * 4;
        (pres.pixels@[i], pres.pixels@[i + 1], pres.pixels@[i + 2])
    } else {
        (0u8, 0u8, 0u8)
    }
}

/// A pixel of a presentation fitted into `target`: black outside the picture,
/// and the nearest pixel inside.
pub open spec fn fitted(pres: Presentation, target: Resolution, x: int, y: int) -> (u8, u8, u8) {
    let quad = letterbox_view(pres.surface, target);
    if quad.covers(x, y) {
        presented(
            pres,
            nearest(x - quad.x, pres.surface.width as int, quad.width as int),
            nearest(y - quad.y, pres.surface.height as int, quad.height as int),
        )
    } else {
        (0u8, 0u8, 0u8)
    }
}

/// Whether a picture is a presentation fitted into `target`.
pub open spec fn is_fitted(image: Image, pres: Presentation, target: Resolution) -> bool {
    &&& image.width == target.width
    &&& image.height == target.height
    &&& image.rgb@.len() == 3 * (target.width * target.height)
    &&& forall|x: int, y: int|
        0 <= x < target.width && 0 <= y < target.height ==> #[trigger] image.at(x, y) == fitted(
            pres,
            target,
            x,
            y,
        )
}

fn fitted_pixel(pres: &Presentation, target: Resolution, quad: Quad, x: u32, y: u32) -> (px: [u8; 4])
    requires
        quad == letterbox_view(pres.surface, target),
    ensures
        (px@[0], px@[1], px@[2]) == fitted(*pres, target, x as int, y as int),
{
    if !quad.contains(x, y) {
        return [0, 0, 0, 0];
    }
    let dx: u32 = x - quad.x;
    let dy: u32 = y - quad.y;
    let sw: u32 = pres.surface.width;
    let sh: u32 = pres.surface.height;
    proof {
        lemma_u32_product(dx as int, sw as int);
        lemma_u32_product(dy as int, sh as int);
        let qw = quad.width as int;
        let qh = quad.height as int;
        assert(0 <= dx * sw / qw < sw) by (nonlinear_arith)
            requires
                0 <= dx < qw,
                0 < sw,
        ;
        assert(0 <= dy * sh / qh < sh) by (nonlinear_arith)
            requires
                0 <= dy < qh,
                0 < sh,
        ;
    }
    let sx: u32 = (dx as u64 * sw as u64 / quad.width as u64) as u32;
    let sy: u32 = (dy as u64 * sh as u64 / quad.height as u64) as u32;
    pres.pixel(sx, sy)
}

proof fn lemma_rows_apart(w: int, x: int, y: int, cx: int, cy: int)
    requires
        0 <= x < w,
        0 <= cx < w,
        0 <= y,
        0 <= cy,
    ensures
        cy * w + cx == y * w + x ==> cx == x && cy == y,
        cy < y ==> cy * w + cx < y * w,
        cy > y ==> cy * w + cx >= y * w + w,
{
    if cy < y {
        assert(cy * w + w <= y * w) by (nonlinear_arith)
            requires
                cy + 1 <= y,
                w > 0,
        ;
    } else if cy > y {
        assert(y * w + w <= cy * w) by (nonlinear_arith)
            requires
                y + 1 <= cy,
                w > 0,
        ;
    }
}

/// Fits a presentation into `target`: never stretched, never cut.
pub fn downsample(pres: &Presentation, target: Resolution) -> (image: Image)
    ensures
        is_fitted(image, *pres, target),
{
    let quad = letterbox(pres.surface, target);
    let mut rgb: Vec<u8> = Vec::new();
    let w: u32 = target.width;
    let h: u32 = target.height;
    let mut y: u32 = 0;
    while y < h
        invariant
            y <= h,
            w == target.width,
            h == target.height,
            quad == letterbox_view(pres.surface, target),
            rgb@.len() == 3 * (y * w),
            forall|cx: int, cy: int|
                0 <= cx < w && 0 <= cy < y ==> pixel_in(rgb@, cy * w + cx) == #[trigger] fitted(
                    *pres,
                    target,
                    cx,
                    cy,
                ),
        decreases h - y,
    {
        let mut x: u32 = 0;
        assert((y + 1) * w == y * w + w) by (nonlinear_arith);
        while x < w
            invariant
                x <= w == target.width,
                y < h == target.height,
                quad == letterbox_view(pres.surface, target),
                rgb@.len() == 3 * (y * w + x),
                forall|cx: int, cy: int|
                    0 <= cx < w && 0 <= cy <= y && (cy < y || cx < x) ==> pixel_in(
                        rgb@,
                        cy * w + cx,
                    ) == #[trigger] fitted(*pres, target, cx, cy),
            decreases w - x,
        {
            let px = fitted_pixel(pres, target, quad, x, y);
            let ghost before = rgb@;
            rgb.push(px[0]);
            rgb.push(px[1]);
            rgb.push(px[2]);
            proof {
                assert(0 <= y * w) by (nonlinear_arith)
                    requires
                        0 <= y,
                        0 <= w,
                ;
                assert forall|cx: int, cy: int|
                    0 <= cx < w && 0 <= cy <= y && (cy < y || cx < x + 1) implies pixel_in(
                    rgb@,
                    cy * w + cx,
                ) == #[trigger] fitted(*pres, target, cx, cy) by {
                    lemma_rows_apart(w as int, x as int, y as int, cx, cy);
                    assert(0 <= cy * w) by (nonlinear_arith)
                        requires
                            0 <= cy,
                            0 <= w,
                    ;
                    if cy < y || cx < x {
                        assert(pixel_in(before, cy * w + cx) == fitted(*pres, target, cx, cy));
                    }
                }
            }
            x = x + 1;
        }
        y = y + 1;
    }
    let image = Image { width: w, height: h, rgb };
    assert forall|x: int, y: int|
        0 <= x < target.width && 0 <= y < target.height implies #[trigger] image.at(x, y) == fitted(
        *pres,
        target,
        x,
        y,
    ) by {
        assert(pixel_in(rgb@, (y * w) + x) == fitted(*pres, target, x, y));
    }
    assert(h * w == w * h) by (nonlinear_arith);
    image
}

/// The upper half block, whose two halves are the two colours of a cell.
pub const HALF_BLOCK: char = '\u{2580}';

/// A cell that shows two pixels, one above the other.
pub open spec fn half_block(image: Image, column: int, row: int) -> Glyph {
    let top = image.at(column, row * 2);
    let bottom = image.at(column, row * 2 + 1);
    (
        HALF_BLOCK,
        Style {
            fg: Some(Color::Rgb(top.0, top.1, top.2)),
            bg: Some(Color::Rgb(bottom.0, bottom.1, bottom.2)),
            bold: false,
            reversed: false,
        },
    )
}

/// A row of half blocks.
pub open spec fn block_row(image: Image, columns: int, row: int) -> Seq<Glyph> {
    Seq::new(columns as nat, |x: int| half_block(image, x, row))
}

/// Half blocks: two pixel rows in each row of characters.
pub open spec fn blocks(image: Image, layout: Layout) -> Seq<Seq<SpanView>> {
    Seq::new(layout.rows as nat, |y: int| runs(block_row(image, layout.columns as int, y)))
}

pub fn half_blocks(image: &Image, layout: Layout) -> (lines: Vec<Vec<Span>>)
    ensures
        lines_view(lines@) == blocks(*image, layout),
{
    let mut out: Vec<Vec<Span>> = Vec::new();
    let mut row: u32 = 0;
    while row < layout.rows as u32
        invariant
            row <= layout.rows,
            lines_view(out@) =~= blocks(*image, layout).take(row as int),
        decreases layout.rows - row,
    {
        let ghost before = out@;
        let mut cells: Vec<Glyph> = Vec::new();
        let mut column: u32 = 0;
        while column < layout.columns as u32
            invariant
                column <= layout.columns,
                row < layout.rows,
                cells@ =~= block_row(*image, layout.columns as int, row as int).take(
                    column as int,
                ),
            decreases layout.columns - column,
        {
            let top = image.pixel(column, row * 2);
            let bottom = image.pixel(column, row * 2 + 1);
            let style = Style {
                fg: Some(Color::Rgb(top[0], top[1], top[2])),
                bg: Some(Color::Rgb(bottom[0], bottom[1], bottom[2])),
                bold: false,
                reversed: false,
            };
            cells.push((HALF_BLOCK, style));
            column = column + 1;
        }
        assert(cells@ =~= block_row(*image, layout.columns as int, row as int));
        let line = group(&cells);
        out.push(line);
        proof {
            assert(spans_view(line@) == blocks(*image, layout)[row as int]);
            assert(lines_view(out@) =~= lines_view(before).push(spans_view(line@)));
        }
        row = row + 1;
    }
    assert(blocks(*image, layout).take(row as int) =~= blocks(*image, layout));
    out
}

/// The characters of a picture that are sent at a time.
pub const KITTY_CHUNK: usize = 4096;

/// What stands before a chunk: the picture's size before the first, and
/// whether more follows.
pub open spec fn chunk_header(image: Image, layout: Layout, start: int, more: bool) -> Seq<u8> {
    let m = if more {
        ascii("1;"@)
    } else {
        ascii("0;"@)
    };
    if start == 0 {
        ascii("\u{1b}_Ga=T,f=24,s="@) + number(image.width as int) + ascii(",v="@) + number(
            image.height as int,
        ) + ascii(",c="@) + number(layout.columns as int) + ascii(",r="@) + number(
            layout.rows as int,
        ) + ascii(",q=2,m="@) + m
    } else {
        ascii("\u{1b}_Gm="@) + m
    }
}

/// The end of a chunk.
pub open spec fn chunk_end(payload: Seq<u8>, start: int) -> int {
    least(start + KITTY_CHUNK, payload.len() as int)
}

/// The chunks of a picture from `start` on.
pub open spec fn chunks(image: Image, layout: Layout, payload: Seq<u8>, start: int) -> Seq<u8>
    decreases payload.len() - start,
{
    if start >= payload.len() {
        Seq::empty()
    } else {
        let end = chunk_end(payload, start);
        chunk_header(image, layout, start, end < payload.len()) + payload.subrange(start, end)
            + ascii("\u{1b}\\"@) + chunks(image, layout, payload, end)
    }
}

/// A picture as kitty is sent it: what was there is deleted, and the picture
/// drawn.
pub open spec fn kitty_bytes(image: Image, layout: Layout) -> Seq<u8> {
    ascii("\u{1b}_Ga=d,d=A\u{1b}\\"@) + chunks(
        image,
        layout,
        ascii(encoded(image.rgb@, 0)),
        0,
    )
}

pub fn kitty(image: &Image, layout: Layout) -> (out: Vec<u8>)
    ensures
        out@ == kitty_bytes(*image, layout),
{
    let mut out: Vec<u8> = Vec::new();
    push_text(&mut out, "\u{1b}_Ga=d,d=A\u{1b}\\");
    let mut payload: Vec<u8> = Vec::new();
    let text = base64(image.rgb.as_slice());
    push_text(&mut payload, text.as_str());
    assert(payload@ =~= ascii(encoded(image.rgb@, 0)));
    let ghost head = out@;
    let n: usize = payload.len();
    let mut start: usize = 0;
    while start < n
        invariant
            start <= n == payload@.len(),
            out@ + chunks(*image, layout, payload@, start as int) == head + chunks(
                *image,
                layout,
                payload@,
                0,
            ),
        decreases n - start,
    {
        let ghost done = out@;
        let end: usize = if n - start > KITTY_CHUNK {
            start + KITTY_CHUNK
        } else {
            n
        };
        assert(end == chunk_end(payload@, start as int));
        if start == 0 {
            push_text(&mut out, "\u{1b}_Ga=T,f=24,s=");
            push_number(&mut out, image.width as u64);
            push_text(&mut out, ",v=");
            push_number(&mut out, image.height as u64);
            push_text(&mut out, ",c=");
            push_number(&mut out, layout.columns as u64);
            push_text(&mut out, ",r=");
            push_number(&mut out, layout.rows as u64);
            push_text(&mut out, ",q=2,m=");
        } else {
            push_text(&mut out, "\u{1b}_Gm=");
        }
        if end < n {
            push_text(&mut out, "1;");
        } else {
            push_text(&mut out, "0;");
        }
        let ghost header = chunk_header(*image, layout, start as int, end < n);
        assert(out@ =~= done + header);
        let mut i: usize = start;
        while i < end
            invariant
                start <= i <= end <= n == payload@.len(),
                out@ =~= done + header + payload@.subrange(start as int, i as int),
            decreases end - i,
        {
            out.push(payload[i]);
            i = i + 1;
        }
        push_text(&mut out, "\u{1b}\\");
        let ghost rest = chunks(*image, layout, payload@, end as int);
        assert(out@ + rest =~= done + chunks(*image, layout, payload@, start as int));
        start = end;
    }
    assert(chunks(*image, layout, payload@, start as int) =~= Seq::<u8>::empty());
    assert(out@ =~= out@ + chunks(*image, layout, payload@, start as int));
    out
}

/// A picture encoded for the protocol of its layout.
pub open spec fn encoded_band(image: Image, layout: Layout, id: u64) -> BandView {
    BandView {
        rows: layout.rows,
        cells: if layout.protocol == Protocol::Blocks {
            blocks(image, layout)
        } else {
            Seq::empty()
        },
        escape: match layout.protocol {
            Protocol::Blocks => None,
            Protocol::Kitty => Some(kitty_bytes(image, layout)),
            Protocol::Sixel => Some(sixel_bytes(image)),
        },
        pixels_id: id,
    }
}

/// Encodes a picture that was already fitted.
pub fn encode(image: &Image, layout: Layout) -> (b: Band)
    ensures
        b@ == encoded_band(*image, layout, 0),
{
    let ghost none = lines_view(Seq::<Vec<Span>>::empty());
    assert(none =~= Seq::<Seq<SpanView>>::empty());
    match layout.protocol {
        Protocol::Blocks => {
            let cells = half_blocks(image, layout);
            Band { rows: layout.rows, cells, escape: None, pixels_id: 0 }
        },
        Protocol::Kitty => {
            let bytes = kitty(image, layout);
            let cells: Vec<Vec<Span>> = Vec::new();
            assert(cells@ =~= Seq::<Vec<Span>>::empty());
            Band { rows: layout.rows, cells, escape: Some(bytes), pixels_id: 0 }
        },
        Protocol::Sixel => {
            let bytes = sixel(image);
            let cells: Vec<Vec<Span>> = Vec::new();
            assert(cells@ =~= Seq::<Vec<Span>>::empty());
            Band { rows: layout.rows, cells, escape: Some(bytes), pixels_id: 0 }
        },
    }
}

/// Fits a presentation into a layout and encodes it; nothing where the layout
/// has no cells.
pub fn paint(pres: &Presentation, layout: Layout) -> (b: Band)
    ensures
        layout.rows == 0 || layout.columns == 0 ==> b@ == no_band(),
        layout.rows > 0 && layout.columns > 0 ==> exists|image: Image|
            is_fitted(image, *pres, layout.area()) && b@ == #[trigger] encoded_band(
                image,
                layout,
                pres.pixels_id,
            ),
{
    if layout.rows == 0 || layout.columns == 0 {
        return Band::default();
    }
    let target = layout.pixels();
    let image = downsample(pres, target);
    let mut band = encode(&image, layout);
    band.pixels_id = pres.pixels_id;
    assert(band@ == encoded_band(image, layout, pres.pixels_id));
    band
}

/// A presentation is drawn upright and in proportion: each pixel inside is the
/// pixel of the presentation that lies as far along and as far down, and the
/// rest is black.
pub proof fn a_preview_is_drawn_in_proportion(
    image: Image,
    pres: Presentation,
    target: Resolution,
    x: int,
    y: int,
)
    requires
        is_fitted(image, pres, target),
        pres.wf(),
        pres.pixels@.len() > 0,
        0 <= x < target.width,
        0 <= y < target.height,
    ensures
        ({
            let q = letterbox_view(pres.surface, target);
            let w = pres.surface.width as int;
            let h = pres.surface.height as int;
            if q.covers(x, y) {
                exists|sx: int, sy: int|
                    {
                        &&& #[trigger] samples(x - q.x, w, q.width as int, sx)
                        &&& #[trigger] samples(y - q.y, h, q.height as int, sy)
                        &&& image.at(x, y).0 == pres.pixels@[(sy * w + sx) * 4]
                        &&& image.at(x, y).1 == pres.pixels@[(sy * w + sx) * 4 + 1]
                        &&& image.at(x, y).2 == pres.pixels@[(sy * w + sx) * 4 + 2]
                    }
            } else {
                image.at(x, y) == (0u8, 0u8, 0u8)
            }
        }),
{
    let q = letterbox_view(pres.surface, target);
    let w = pres.surface.width as int;
    let h = pres.surface.height as int;
    assert(image.at(x, y) == fitted(pres, target, x, y));
    if q.covers(x, y) {
        lemma_samples(x - q.x, w, q.width as int);
        lemma_samples(y - q.y, h, q.height as int);
        let sx = (x - q.x) * w / (q.width as int);
        let sy = (y - q.y) * h / (q.height as int);
        assert(samples(x - q.x, w, q.width as int, sx));
        assert(samples(y - q.y, h, q.height as int, sy));
        pres.a_whole_buffer_has_every_pixel(sx, sy);
    }
}

/// A presentation of the size of its target is drawn as it is.
pub proof fn a_presentation_of_its_size_is_drawn_as_it_is(
    image: Image,
    pres: Presentation,
    x: int,
    y: int,
)
    requires
        is_fitted(image, pres, pres.surface),
        pres.wf(),
        pres.pixels@.len() > 0,
        0 <= x < pres.surface.width,
        0 <= y < pres.surface.height,
    ensures
        image.at(x, y).0 == pres.pixels@[(y * pres.surface.width + x) * 4],
        image.at(x, y).1 == pres.pixels@[(y * pres.surface.width + x) * 4 + 1],
        image.at(x, y).2 == pres.pixels@[(y * pres.surface.width + x) * 4 + 2],
{
    let w = pres.surface.width as int;
    let h = pres.surface.height as int;
    equal_shapes_fill_the_surface(pres.surface, pres.surface);
    a_preview_is_drawn_in_proportion(image, pres, pres.surface, x, y);
    let (sx, sy) = choose|sx: int, sy: int|
        {
            &&& #[trigger] samples(x, w, w, sx)
            &&& #[trigger] samples(y, h, h, sy)
            &&& image.at(x, y).0 == pres.pixels@[(sy * w + sx) * 4]
            &&& image.at(x, y).1 == pres.pixels@[(sy * w + sx) * 4 + 1]
            &&& image.at(x, y).2 == pres.pixels@[(sy * w + sx) * 4 + 2]
        };
    sampling_keeps_the_order(x, x, w, w, sx, sx);
    sampling_keeps_the_order(y, y, h, h, sy, sy);
}

/// Half blocks show two pixels in each cell: the upper one in front and the
/// lower one behind.
pub proof fn half_blocks_show_every_pixel(image: Image, layout: Layout, x: int, y: int)
    requires
        0 <= x < layout.columns,
        0 <= y < layout.rows,
    ensures
        blocks(image, layout).len() == layout.rows,
        ({
            let row = cells_of(blocks(image, layout)[y]);
            let top = image.at(x, 2 * y);
            let bottom = image.at(x, 2 * y + 1);
            &&& row.len() == layout.columns
            &&& row[x].0 == '\u{2580}'
            &&& row[x].1.fg == Some(Color::Rgb(top.0, top.1, top.2))
            &&& row[x].1.bg == Some(Color::Rgb(bottom.0, bottom.1, bottom.2))
            &&& !row[x].1.reversed
        }),
{
    runs_draw_their_cells(block_row(image, layout.columns as int, y));
}

/// The cells of a preview cover as many pixels as they have: half blocks one
/// across and two down, and the others what the terminal measured.
pub proof fn a_layout_covers_its_cells(layout: Layout)
    ensures
        layout.protocol == Protocol::Blocks ==> layout.area().width == layout.columns
            && layout.area().height == 2 * layout.rows,
        layout.protocol != Protocol::Blocks ==> layout.area().width == layout.columns
            * layout.cell.width && layout.area().height == layout.rows * layout.cell.height,
{
    let a = layout.columns as int;
    let b = layout.rows as int;
    let c = layout.cell.width as int;
    let d = layout.cell.height as int;
    let of = layout.protocol.pixels_of(layout.cell);
    if layout.protocol == Protocol::Blocks {
        assert(a * of.width == a && b * of.height == 2 * b) by (nonlinear_arith)
            requires
                of.width == 1,
                of.height == 2,
        ;
    }
    assert(0 <= a * c <= 65535 * 65535) by (nonlinear_arith)
        requires
            0 <= a <= 65535,
            0 <= c <= 65535,
    ;
    assert(0 <= b * d <= 65535 * 65535) by (nonlinear_arith)
        requires
            0 <= b <= 65535,
            0 <= d <= 65535,
    ;
}

/// A preview gets the rows that it asks for, as far as it may have them: a
/// number of rows as it is, a share of the screen rounded down, and where it
/// fits itself to the picture, what the picture fills.
pub proof fn a_preview_gets_the_rows_it_asks_for(screen: u16, natural: u16, n: u16, p: u8)
    ensures
        rows_of(Height::Off, screen, natural) == 0,
        100 * n <= 75 * screen ==> rows_of(Height::Rows(n), screen, natural) == n,
        100 * natural <= 75 * screen ==> rows_of(Height::Auto, screen, natural) == natural,
        100 * rows_of(Height::Percent(p), screen, natural) <= screen * p,
        p <= 75 ==> 100 * (rows_of(Height::Percent(p), screen, natural) + 1) > screen * p,
        100 * n > 75 * screen ==> 100 * (rows_of(Height::Rows(n), screen, natural) + 1) > 75
            * screen,
{
    if p <= 75 {
        assert(screen * p <= screen * 75) by (nonlinear_arith)
            requires
                p <= 75,
        ;
    }
}

/// The rows that a picture fills are the fewest in which it has its height, at
/// the width of the columns and in its own shape.
pub proof fn natural_rows_fit_the_picture(
    columns: u16,
    protocol: Protocol,
    cell: Cell,
    aspect: Resolution,
    tall: int,
)
    requires
        aspect.width > 0,
        protocol.pixels_of(cell).height > 0,
        natural_height(columns, protocol, cell, aspect) < 65535,
        tall * aspect.width <= (columns * protocol.pixels_of(cell).width) * aspect.height,
        (columns * protocol.pixels_of(cell).width) * aspect.height < (tall + 1) * aspect.width,
    ensures
        natural_height(columns, protocol, cell, aspect) * protocol.pixels_of(cell).height >= tall,
        (natural_height(columns, protocol, cell, aspect) - 1) * protocol.pixels_of(cell).height
            < tall,
{
    let c = protocol.pixels_of(cell);
    let all = (columns * c.width) * aspect.height;
    let w = aspect.width as int;
    let h = c.height as int;
    assert(all / w == tall) by (nonlinear_arith)
        requires
            w > 0,
            tall * w <= all,
            all < (tall + 1) * w,
    ;
    let rows = ceiling(tall, h);
    assert(rows * h >= tall && (rows - 1) * h < tall) by (nonlinear_arith)
        requires
            h > 0,
            rows == (tall + h - 1) / h,
    ;
}

/// A name in the environment decides: kitty and the terminals that draw its
/// pictures come before those that draw sixels, and all others get half blocks.
pub proof fn a_terminal_gets_what_it_draws(window: Seq<char>, term: Seq<char>, program: Seq<char>)
    ensures
        window.len() > 0 ==> suggested(window, term, program) == Protocol::Kitty,
        holds(term, "kitty"@) ==> suggested(window, term, program) == Protocol::Kitty,
        holds(program, "kitty"@) || holds(program, "ghostty"@) || holds(program, "wezterm"@)
            ==> suggested(window, term, program) == Protocol::Kitty,
        !(suggested(window, term, program) is Kitty) && (holds(term, "sixel"@) || holds(
            term,
            "foot"@,
        ) || holds(term, "mlterm"@)) ==> suggested(window, term, program) == Protocol::Sixel,
        window.len() == 0 && !holds(term, "kitty"@) && !holds(program, "kitty"@) && !holds(
            program,
            "ghostty"@,
        ) && !holds(program, "wezterm"@) ==> !(suggested(window, term, program) is Kitty),
        suggested(window, term, program) == Protocol::Sixel ==> holds(term, "sixel"@) || holds(
            term,
            "foot"@,
        ) || holds(term, "mlterm"@),
{
}

/// A preview is sent in the way of its protocol and in no other.
pub proof fn a_band_is_of_its_protocol(image: Image, layout: Layout, id: u64)
    ensures
        encoded_band(image, layout, id).rows == layout.rows,
        encoded_band(image, layout, id).pixels_id == id,
        (encoded_band(image, layout, id).escape is None) == (layout.protocol == Protocol::Blocks),
        layout.protocol != Protocol::Blocks ==> encoded_band(image, layout, id).cells.len() == 0,
        layout.protocol == Protocol::Blocks ==> encoded_band(image, layout, id).cells.len()
            == layout.rows,
        layout.protocol == Protocol::Kitty ==> encoded_band(image, layout, id).escape == Some(
            kitty_bytes(image, layout),
        ),
        layout.protocol == Protocol::Sixel ==> encoded_band(image, layout, id).escape == Some(
            sixel_bytes(image),
        ),
{
}

} // verus!
