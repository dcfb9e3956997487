//! What a terminal makes of sixels: the registers that are declared, and the
//! columns that are drawn.
use vstd::prelude::*;
use vstd::string::*;

use crate::tui::bytes::ascii;
use crate::tui::bytes::number;
use crate::tui::bytes::repeated_byte;
use crate::tui::image::Image;
use crate::tui::palette::BINS;
use crate::tui::palette::a_palette_is_as_large_as_it_may_be;
use crate::tui::palette::bin_of;
use crate::tui::sixel::a_pixel_is_drawn_once;
use crate::tui::sixel::band_bytes;
use crate::tui::sixel::band_count;
use crate::tui::sixel::band_row;
use crate::tui::sixel::bands_bytes;
use crate::tui::sixel::columns;
use crate::tui::sixel::encoded_row;
use crate::tui::sixel::index_in;
use crate::tui::sixel::lemma_bits;
use crate::tui::sixel::lemma_run;
use crate::tui::sixel::palette_of;
use crate::tui::sixel::percent;
use crate::tui::sixel::place;
use crate::tui::sixel::registers;
use crate::tui::sixel::run_from;
use crate::tui::sixel::sixel_bytes;
use crate::tui::sixel::without_tail;

verus! {

/// What numbers are read for.
pub enum Leader {
    /// The shape of the picture.
    Shape,
    /// A register, which is declared or selected.
    Colour,
    /// How often the next column is drawn.
    Repeat,
}

/// What is being read.
pub enum Reading {
    Plain,
    Numbers(Leader, Seq<int>),
}

/// Six pixels below each other, drawn in one register.
pub struct Column {
    pub band: int,
    pub x: int,
    pub register: int,
    pub bits: int,
}

/// What a terminal has read.
pub struct Screen {
    pub reading: Reading,
    /// The register that is drawn in.
    pub register: int,
    pub x: int,
    pub band: int,
    pub shape: Seq<int>,
    pub registers: Map<int, (int, int, int)>,
    pub columns: Seq<Column>,
}

/// A screen on which nothing has been drawn.
pub open spec fn blank() -> Screen {
    Screen {
        reading: Reading::Plain,
        register: 0,
        x: 0,
        band: 0,
        shape: Seq::empty(),
        registers: Map::empty(),
        columns: Seq::empty(),
    }
}

/// The screen once the numbers that were read are over: a register with a
/// colour is declared, one without is selected.
pub open spec fn concluded(s: Screen) -> Screen {
    match s.reading {
        Reading::Numbers(Leader::Colour, v) => Screen {
            reading: Reading::Plain,
            register: v[0],
            registers: if v.len() >= 5 {
                s.registers.insert(v[0], (v[2], v[3], v[4]))
            } else {
                s.registers
            },
            ..s
        },
        Reading::Numbers(Leader::Shape, v) => Screen { reading: Reading::Plain, shape: v, ..s },
        _ => Screen { reading: Reading::Plain, ..s },
    }
}

/// The screen with a column drawn `n` times, side by side.
pub open spec fn drawn(s: Screen, bits: int, n: int) -> Screen {
    Screen {
        x: s.x + n,
        columns: s.columns + Seq::new(
            n as nat,
            |k: int| Column { band: s.band, x: s.x + k, register: s.register, bits },
        ),
        ..s
    }
}

/// Whether a byte belongs to a number.
pub open spec fn in_number(b: u8) -> bool {
    48 <= b <= 57 || b == 59
}

/// Numbers with one more byte.
pub open spec fn with_byte(v: Seq<int>, b: u8) -> Seq<int> {
    if b == 59 {
        v.push(0)
    } else {
        v.update(v.len() - 1, v.last() * 10 + (b - 48))
    }
}

/// A byte that is not part of a number.
pub open spec fn plain_byte(s: Screen, b: u8) -> Screen {
    if b == 34 {
        Screen { reading: Reading::Numbers(Leader::Shape, seq![0]), ..s }
    } else if b == 35 {
        Screen { reading: Reading::Numbers(Leader::Colour, seq![0]), ..s }
    } else if b == 33 {
        Screen { reading: Reading::Numbers(Leader::Repeat, seq![0]), ..s }
    } else if b == 36 {
        Screen { x: 0, ..s }
    } else if b == 45 {
        Screen { x: 0, band: s.band + 1, ..s }
    } else if 63 <= b <= 126 {
        drawn(s, b - 63, 1)
    } else {
        s
    }
}

/// The screen after one byte.
pub open spec fn after_byte(s: Screen, b: u8) -> Screen {
    match s.reading {
        Reading::Numbers(leader, v) => if in_number(b) {
            Screen { reading: Reading::Numbers(leader, with_byte(v, b)), ..s }
        } else if leader is Repeat && 63 <= b <= 126 {
            drawn(concluded(s), b - 63, v[0])
        } else {
            plain_byte(concluded(s), b)
        },
        Reading::Plain => plain_byte(s, b),
    }
}

/// The screen after some bytes.
pub open spec fn read(bytes: Seq<u8>, s: Screen) -> Screen
    decreases bytes.len(),
{
    if bytes.len() == 0 {
        s
    } else {
        read(bytes.drop_first(), after_byte(s, bytes[0]))
    }
}

proof fn lemma_read_concat(a: Seq<u8>, b: Seq<u8>, s: Screen)
    ensures
        read(a + b, s) == read(b, read(a, s)),
    decreases a.len(),
{
    if a.len() == 0 {
        assert(a + b =~= b);
    } else {
        assert((a + b).drop_first() =~= a.drop_first() + b);
        lemma_read_concat(a.drop_first(), b, after_byte(s, a[0]));
    }
}

proof fn lemma_read_one(b: u8, s: Screen)
    ensures
        read(seq![b], s) == after_byte(s, b),
{
    assert(seq![b].drop_first() =~= Seq::<u8>::empty());
    reveal_with_fuel(read, 2);
}

/// A number is read digit by digit.
proof fn lemma_read_number(n: nat, s: Screen, leader: Leader, v: Seq<int>)
    requires
        s.reading == Reading::Numbers(leader, v.push(0)),
    ensures
        read(number(n as int), s) == (Screen {
            reading: Reading::Numbers(leader, v.push(n as int)),
            ..s
        }),
    decreases n,
{
    let last = (48 + n % 10) as u8;
    if n < 10 {
        assert(number(n as int) =~= seq![last]);
        lemma_read_one(last, s);
        assert(with_byte(v.push(0), last) =~= v.push(n as int));
    } else {
        assert(number(n as int) =~= number((n / 10) as int) + seq![last]);
        lemma_read_number(n / 10, s, leader, v);
        lemma_read_concat(number((n / 10) as int), seq![last], s);
        let t = read(number((n / 10) as int), s);
        lemma_read_one(last, t);
        assert(with_byte(v.push((n / 10) as int), last) =~= v.push(n as int));
    }
}

/// Whether a column that comes next is drawn once.
pub open spec fn is_steady(s: Screen) -> bool {
    !(s.reading matches Reading::Numbers(Leader::Repeat, _))
}

proof fn lemma_read_repeated(bits: u8, n: int, s: Screen)
    requires
        bits <= 63,
        n >= 1,
        is_steady(s),
    ensures
        read(repeated_byte((63 + bits) as u8, n), s) == drawn(concluded(s), bits as int, n),
    decreases n,
{
    let c = (63 + bits) as u8;
    let all = repeated_byte(c, n);
    let t = after_byte(s, c);
    assert(t == drawn(concluded(s), bits as int, 1));
    if n == 1 {
        assert(all =~= seq![c]);
        lemma_read_one(c, s);
    } else {
        assert(all.drop_first() =~= repeated_byte(c, n - 1));
        lemma_read_repeated(bits, n - 1, t);
        assert(concluded(t) == t);
        assert(drawn(t, bits as int, n - 1).columns =~= drawn(
            concluded(s),
            bits as int,
            n,
        ).columns);
    }
}

proof fn lemma_read_columns(bits: u8, n: int, s: Screen)
    requires
        bits <= 63,
        n >= 1,
        is_steady(s),
    ensures
        read(columns(bits, n), s) == drawn(concluded(s), bits as int, n),
{
    if n > 4 {
        reveal_strlit("!");
        let c = (63 + bits) as u8;
        assert(ascii("!"@) =~= seq![33u8]);
        let t = after_byte(s, 33);
        lemma_read_one(33, s);
        assert(seq![0int] =~= Seq::<int>::empty().push(0));
        lemma_read_number(n as nat, t, Leader::Repeat, Seq::empty());
        let u = read(number(n), t);
        lemma_read_one(c, u);
        lemma_read_concat(ascii("!"@) + number(n), seq![c], s);
        lemma_read_concat(ascii("!"@), number(n), s);
        assert(after_byte(u, c) == drawn(concluded(u), bits as int, n));
        assert(concluded(u) == concluded(s));
    } else {
        lemma_read_repeated(bits, n, s);
    }
}

/// The columns of a row, from the left.
pub open spec fn row_columns(band: int, register: int, row: Seq<u8>) -> Seq<Column> {
    Seq::new(row.len(), |k: int| Column { band, x: k, register, bits: row[k] as int })
}

proof fn lemma_read_row(row: Seq<u8>, i: int, s: Screen)
    requires
        0 <= i < row.len(),
        forall|k: int| 0 <= k < row.len() ==> #[trigger] row[k] <= 63,
        is_steady(s),
        s.x == i,
    ensures
        ({
            let t = concluded(s);
            read(encoded_row(row, i), s) == (Screen {
                x: row.len() as int,
                columns: s.columns + row_columns(t.band, t.register, row).skip(i),
                ..t
            })
        }),
    decreases row.len() - i,
{
    let n = run_from(row, i);
    lemma_run(row, i);
    let t = concluded(s);
    let u = drawn(t, row[i] as int, n);
    let rest = encoded_row(row, i + n);
    lemma_read_columns(row[i], n, s);
    lemma_read_concat(columns(row[i], n), rest, s);
    let all = row_columns(t.band, t.register, row);
    if i + n < row.len() {
        lemma_read_row(row, i + n, u);
        assert(concluded(u) == u);
        assert(u.columns + all.skip(i + n) =~= s.columns + all.skip(i));
    } else {
        assert(rest =~= Seq::<u8>::empty());
        assert(u.columns =~= s.columns + all.skip(i));
    }
}

/// The columns of a band, for the first `entries` registers.
pub open spec fn band_columns(image: Image, index_of: Seq<u8>, band: int, entries: int) -> Seq<
    Column,
>
    decreases entries,
{
    if entries <= 0 {
        Seq::empty()
    } else {
        band_columns(image, index_of, band, entries - 1) + row_columns(
            band,
            entries - 1,
            without_tail(band_row(image, index_of, entries - 1, band)),
        )
    }
}

proof fn lemma_without_tail(row: Seq<u8>)
    ensures
        without_tail(row).len() <= row.len(),
        forall|k: int|
            0 <= k < without_tail(row).len() ==> #[trigger] without_tail(row)[k] == row[k],
        forall|k: int|
            0 <= k < row.len() && #[trigger] row[k] != 0 ==> k < without_tail(row).len(),
    decreases row.len(),
{
    if row.len() > 0 && row.last() == 0 {
        lemma_without_tail(row.drop_last());
        let short = row.drop_last();
        assert forall|k: int| 0 <= k < row.len() && #[trigger] row[k] != 0 implies k
            < without_tail(row).len() by {
            assert(short[k] == row[k]);
        }
        assert forall|k: int| 0 <= k < without_tail(row).len() implies #[trigger] without_tail(
            row,
        )[k] == row[k] by {
            assert(without_tail(short)[k] == short[k]);
        }
    }
}

/// Reading a band draws its columns and changes nothing else.
proof fn lemma_read_band(image: Image, index_of: Seq<u8>, entries: int, s: Screen)
    requires
        is_steady(s),
        s.x == 0,
    ensures
        ({
            let bytes = band_bytes(image, index_of, s.band, entries);
            let t = read(bytes, s);
            &&& bytes.len() == 0 ==> t == s
            &&& is_steady(t)
            &&& t.band == s.band
            &&& concluded(t).registers == concluded(s).registers
            &&& concluded(t).shape == concluded(s).shape
            &&& t.columns == s.columns + band_columns(image, index_of, s.band, entries)
        }),
    decreases entries,
{
    let bytes = band_bytes(image, index_of, s.band, entries);
    if entries <= 0 {
        assert(s.columns + Seq::<Column>::empty() =~= s.columns);
    } else {
        lemma_read_band(image, index_of, entries - 1, s);
        let before = band_bytes(image, index_of, s.band, entries - 1);
        let full = band_row(image, index_of, entries - 1, s.band);
        let row = without_tail(full);
        lemma_without_tail(full);
        let t = read(before, s);
        let drawn_before = band_columns(image, index_of, s.band, entries - 1);
        if row.len() == 0 {
            assert(drawn_before + row_columns(s.band, entries - 1, row) =~= drawn_before);
        } else {
            reveal_strlit("$");
            reveal_strlit("#");
            assert(ascii("$"@) =~= seq![36u8]);
            assert(ascii("#"@) =~= seq![35u8]);
            let turn = if before.len() > 0 {
                ascii("$"@)
            } else {
                Seq::empty()
            };
            let u = if before.len() > 0 {
                after_byte(t, 36)
            } else {
                t
            };
            lemma_read_one(36, t);
            lemma_read_concat(before, turn, s);
            if before.len() == 0 {
                assert(before + turn =~= before);
            }
            assert(read(before + turn, s) == u);
            lemma_read_concat(before + turn, ascii("#"@), s);
            lemma_read_one(35, u);
            let v = after_byte(u, 35);
            assert(seq![0int] =~= Seq::<int>::empty().push(0));
            lemma_read_number((entries - 1) as nat, v, Leader::Colour, Seq::empty());
            lemma_read_concat(before + turn + ascii("#"@), number(entries - 1), s);
            let w = read(number(entries - 1), v);
            assert forall|k: int| 0 <= k < row.len() implies #[trigger] row[k] <= 63 by {
                lemma_bits(image, index_of, entries - 1, k, s.band, 6);
                assert(row[k] == full[k]);
            }
            lemma_read_row(row, 0, w);
            lemma_read_concat(
                before + turn + ascii("#"@) + number(entries - 1),
                encoded_row(row, 0),
                s,
            );
            let all = row_columns(s.band, entries - 1, row);
            assert(all.skip(0) =~= all);
            assert(concluded(w).register == entries - 1);
            assert(s.columns + drawn_before + all =~= s.columns + (drawn_before + all));
            assert(bytes.len() > 0);
        }
    }
}

/// The columns of the first `n` bands.
pub open spec fn all_columns(image: Image, index_of: Seq<u8>, n: int, entries: int) -> Seq<Column>
    decreases n,
{
    if n <= 0 {
        Seq::empty()
    } else {
        all_columns(image, index_of, n - 1, entries) + band_columns(
            image,
            index_of,
            n - 1,
            entries,
        )
    }
}

proof fn lemma_read_bands(image: Image, index_of: Seq<u8>, n: int, entries: int, s: Screen)
    requires
        n >= 0,
        is_steady(s),
        s.x == 0,
        s.band == 0,
    ensures
        ({
            let t = read(bands_bytes(image, index_of, n, entries), s);
            &&& is_steady(t)
            &&& t.x == 0
            &&& t.band == n
            &&& concluded(t).registers == concluded(s).registers
            &&& concluded(t).shape == concluded(s).shape
            &&& t.columns == s.columns + all_columns(image, index_of, n, entries)
        }),
    decreases n,
{
    if n <= 0 {
        assert(s.columns + Seq::<Column>::empty() =~= s.columns);
    } else {
        lemma_read_bands(image, index_of, n - 1, entries, s);
        let before = bands_bytes(image, index_of, n - 1, entries);
        let band = band_bytes(image, index_of, n - 1, entries);
        let t = read(before, s);
        lemma_read_band(image, index_of, entries, t);
        let u = read(band, t);
        reveal_strlit("-");
        assert(ascii("-"@) =~= seq![45u8]);
        lemma_read_one(45, u);
        lemma_read_concat(before, band, s);
        lemma_read_concat(before + band, ascii("-"@), s);
        let a = all_columns(image, index_of, n - 1, entries);
        let b = band_columns(image, index_of, n - 1, entries);
        assert(s.columns + a + b =~= s.columns + (a + b));
    }
}

/// The first `n` registers of a palette, in percent.
pub open spec fn declared(palette: Seq<(u8, u8, u8)>, n: int) -> Map<int, (int, int, int)>
    decreases n,
{
    if n <= 0 {
        Map::empty()
    } else {
        let c = palette[n - 1];
        declared(palette, n - 1).insert(n - 1, (percent(c.0), percent(c.1), percent(c.2)))
    }
}

proof fn lemma_read_registers(palette: Seq<(u8, u8, u8)>, n: int, s: Screen)
    requires
        is_steady(s),
        concluded(s).registers == Map::<int, (int, int, int)>::empty(),
    ensures
        ({
            let t = read(registers(palette, n), s);
            &&& is_steady(t)
            &&& t.x == s.x
            &&& t.band == s.band
            &&& t.columns == s.columns
            &&& concluded(t).shape == concluded(s).shape
            &&& concluded(t).registers == declared(palette, n)
        }),
    decreases n,
{
    if n > 0 {
        lemma_read_registers(palette, n - 1, s);
        let c = palette[n - 1];
        let before = registers(palette, n - 1);
        let t = read(before, s);
        reveal_strlit("#");
        reveal_strlit(";2;");
        reveal_strlit(";");
        assert(ascii("#"@) =~= seq![35u8]);
        assert(ascii(";2;"@) =~= seq![59u8] + number(2) + seq![59u8]) by {
            assert(number(2) =~= seq![50u8]);
        }
        assert(ascii(";"@) =~= seq![59u8]);
        lemma_read_one(35, t);
        lemma_read_concat(before, ascii("#"@), s);
        let u = after_byte(t, 35);
        let e = Seq::<int>::empty();
        assert(seq![0int] =~= e.push(0));
        let p1 = before + ascii("#"@);
        lemma_read_number((n - 1) as nat, u, Leader::Colour, e);
        lemma_read_concat(p1, number(n - 1), s);
        let v1 = e.push(n - 1);
        let p2 = p1 + number(n - 1);
        lemma_next_number(p2, s, u, v1, 2);
        let v2 = v1.push(2);
        let p3 = p2 + ascii(";"@) + number(2);
        lemma_next_number(p3, s, u, v2, percent(c.0));
        let v3 = v2.push(percent(c.0));
        let p4 = p3 + ascii(";"@) + number(percent(c.0));
        lemma_next_number(p4, s, u, v3, percent(c.1));
        let v4 = v3.push(percent(c.1));
        let p5 = p4 + ascii(";"@) + number(percent(c.1));
        lemma_next_number(p5, s, u, v4, percent(c.2));
        let v5 = v4.push(percent(c.2));
        let p6 = p5 + ascii(";"@) + number(percent(c.2));
        assert(registers(palette, n) =~= p6);
        assert(read(p6, s) == (Screen { reading: Reading::Numbers(Leader::Colour, v5), ..u }));
    }
}

/// A semicolon and one more number.
proof fn lemma_next_number(before: Seq<u8>, s: Screen, u: Screen, v: Seq<int>, n: int)
    requires
        n >= 0,
        u.reading is Numbers,
        read(before, s) == (Screen { reading: Reading::Numbers(u.reading->Numbers_0, v), ..u }),
    ensures
        read(before + ascii(";"@) + number(n), s) == (Screen {
            reading: Reading::Numbers(u.reading->Numbers_0, v.push(n)),
            ..u
        }),
{
    reveal_strlit(";");
    assert(ascii(";"@) =~= seq![59u8]);
    let t = read(before, s);
    lemma_read_one(59, t);
    lemma_read_concat(before, ascii(";"@), s);
    let w = after_byte(t, 59);
    lemma_read_number(n as nat, w, u.reading->Numbers_0, v);
    lemma_read_concat(before + ascii(";"@), number(n), s);
}

/// Whether a column paints a pixel.
pub open spec fn paints(c: Column, x: int, y: int) -> bool {
    c.band == y / 6 && c.x == x && c.bits / place(y % 6) % 2 == 1
}

/// Whether a pixel is painted once, and in which register.
pub open spec fn painted_once(drawn: Seq<Column>, x: int, y: int, register: int) -> bool {
    exists|k: int|
        {
            &&& 0 <= k < drawn.len()
            &&& paints(#[trigger] drawn[k], x, y)
            &&& drawn[k].register == register
            &&& forall|j: int|
                0 <= j < drawn.len() && paints(#[trigger] drawn[j], x, y) ==> j == k
        }
}

/// Whether no column is drawn twice in one register.
spec fn all_apart(drawn: Seq<Column>) -> bool {
    forall|i: int, j: int|
        0 <= i < j < drawn.len() ==> (#[trigger] drawn[i]).band != (#[trigger] drawn[j]).band
            || drawn[i].register != drawn[j].register || drawn[i].x != drawn[j].x
}

/// Whether a column is one of a band.
spec fn is_of_band(image: Image, index_of: Seq<u8>, band: int, entries: int, c: Column) -> bool {
    &&& c.band == band
    &&& 0 <= c.register < entries
    &&& 0 <= c.x < image.width
    &&& c.bits == band_row(image, index_of, c.register, band)[c.x]
}

proof fn lemma_band_columns(image: Image, index_of: Seq<u8>, band: int, entries: int)
    ensures
        all_apart(band_columns(image, index_of, band, entries)),
        forall|k: int|
            0 <= k < band_columns(image, index_of, band, entries).len() ==> is_of_band(
                image,
                index_of,
                band,
                entries,
                #[trigger] band_columns(image, index_of, band, entries)[k],
            ),
    decreases entries,
{
    if entries > 0 {
        lemma_band_columns(image, index_of, band, entries - 1);
        let a = band_columns(image, index_of, band, entries - 1);
        let full = band_row(image, index_of, entries - 1, band);
        lemma_without_tail(full);
        let row = without_tail(full);
        let b = row_columns(band, entries - 1, row);
        let all = a + b;
        assert forall|k: int| 0 <= k < all.len() implies is_of_band(
            image,
            index_of,
            band,
            entries,
            #[trigger] all[k],
        ) by {
            if k < a.len() {
                assert(is_of_band(image, index_of, band, entries - 1, a[k]));
            } else {
                assert(all[k] == b[k - a.len()]);
                assert(row[k - a.len()] == full[k - a.len()]);
            }
        }
        assert forall|i: int, j: int| 0 <= i < j < all.len() implies (#[trigger] all[i]).band != (
        #[trigger] all[j]).band || all[i].register != all[j].register || all[i].x != all[j].x by {
            if j < a.len() {
                assert(all[i] == a[i] && all[j] == a[j]);
            } else if i < a.len() {
                assert(is_of_band(image, index_of, band, entries - 1, a[i]));
                assert(all[j] == b[j - a.len()]);
            } else {
                assert(all[i] == b[i - a.len()] && all[j] == b[j - a.len()]);
            }
        }
    }
}

/// Every column with a pixel in it is drawn.
proof fn lemma_band_is_whole(
    image: Image,
    index_of: Seq<u8>,
    band: int,
    entries: int,
    register: int,
    x: int,
) -> (k: int)
    requires
        0 <= register < entries,
        0 <= x < image.width,
        band_row(image, index_of, register, band)[x] != 0,
    ensures
        0 <= k < band_columns(image, index_of, band, entries).len(),
        band_columns(image, index_of, band, entries)[k] == (Column {
            band,
            x,
            register,
            bits: band_row(image, index_of, register, band)[x] as int,
        }),
    decreases entries,
{
    let a = band_columns(image, index_of, band, entries - 1);
    let full = band_row(image, index_of, entries - 1, band);
    lemma_without_tail(full);
    let b = row_columns(band, entries - 1, without_tail(full));
    if register == entries - 1 {
        assert(full[x] != 0);
        assert((a + b)[a.len() + x] == b[x]);
        a.len() + x
    } else {
        let k = lemma_band_is_whole(image, index_of, band, entries - 1, register, x);
        assert((a + b)[k] == a[k]);
        k
    }
}

proof fn lemma_all_columns(image: Image, index_of: Seq<u8>, n: int, entries: int)
    ensures
        all_apart(all_columns(image, index_of, n, entries)),
        forall|k: int|
            0 <= k < all_columns(image, index_of, n, entries).len() ==> {
                let c = #[trigger] all_columns(image, index_of, n, entries)[k];
                0 <= c.band < n && is_of_band(image, index_of, c.band, entries, c)
            },
    decreases n,
{
    if n > 0 {
        lemma_all_columns(image, index_of, n - 1, entries);
        lemma_band_columns(image, index_of, n - 1, entries);
        let a = all_columns(image, index_of, n - 1, entries);
        let b = band_columns(image, index_of, n - 1, entries);
        let all = a + b;
        assert forall|k: int| 0 <= k < all.len() implies ({
            let c = #[trigger] all[k];
            0 <= c.band < n && is_of_band(image, index_of, c.band, entries, c)
        }) by {
            if k < a.len() {
                assert(all[k] == a[k]);
            } else {
                assert(all[k] == b[k - a.len()]);
            }
        }
        assert forall|i: int, j: int| 0 <= i < j < all.len() implies (#[trigger] all[i]).band != (
        #[trigger] all[j]).band || all[i].register != all[j].register || all[i].x != all[j].x by {
            if j < a.len() {
                assert(all[i] == a[i] && all[j] == a[j]);
            } else if i < a.len() {
                assert(all[i] == a[i] && all[j] == b[j - a.len()]);
            } else {
                assert(all[i] == b[i - a.len()] && all[j] == b[j - a.len()]);
            }
        }
    }
}

proof fn lemma_all_is_whole(
    image: Image,
    index_of: Seq<u8>,
    n: int,
    entries: int,
    band: int,
    register: int,
    x: int,
) -> (k: int)
    requires
        0 <= band < n,
        0 <= register < entries,
        0 <= x < image.width,
        band_row(image, index_of, register, band)[x] != 0,
    ensures
        0 <= k < all_columns(image, index_of, n, entries).len(),
        all_columns(image, index_of, n, entries)[k] == (Column {
            band,
            x,
            register,
            bits: band_row(image, index_of, register, band)[x] as int,
        }),
    decreases n,
{
    let a = all_columns(image, index_of, n - 1, entries);
    let b = band_columns(image, index_of, n - 1, entries);
    if band == n - 1 {
        let k = lemma_band_is_whole(image, index_of, band, entries, register, x);
        assert((a + b)[a.len() + k] == b[k]);
        a.len() + k
    } else {
        let k = lemma_all_is_whole(image, index_of, n - 1, entries, band, register, x);
        assert((a + b)[k] == a[k]);
        k
    }
}

proof fn lemma_painted_once(image: Image, index_of: Seq<u8>, entries: int, x: int, y: int)
    requires
        0 <= x < image.width,
        0 <= y < image.height,
        0 <= index_of[bin_of(image.at(x, y))] < entries,
    ensures
        painted_once(
            all_columns(image, index_of, band_count(image), entries),
            x,
            y,
            index_of[bin_of(image.at(x, y))] as int,
        ),
{
    let n = band_count(image);
    let all = all_columns(image, index_of, n, entries);
    let register = index_of[bin_of(image.at(x, y))] as int;
    let band = y / 6;
    lemma_all_columns(image, index_of, n, entries);
    a_pixel_is_drawn_once(image, index_of, register, x, y);
    let bits = band_row(image, index_of, register, band)[x];
    assert(bits != 0) by {
        assert(0int / place(y % 6) == 0);
    }
    let k = lemma_all_is_whole(image, index_of, n, entries, band, register, x);
    assert(paints(all[k], x, y));
    assert forall|j: int| 0 <= j < all.len() && paints(#[trigger] all[j], x, y) implies j == k by {
        let c = all[j];
        assert(is_of_band(image, index_of, c.band, entries, c));
        a_pixel_is_drawn_once(image, index_of, c.register, x, y);
        assert(c.register == register);
    }
}

/// The part of a picture between its introducer and its terminator.
pub open spec fn body_of(bytes: Seq<u8>) -> Seq<u8> {
    bytes.subrange(3, bytes.len() - 2)
}

/// What a terminal shows of a picture.
pub open spec fn shown(image: Image) -> Screen {
    concluded(read(body_of(sixel_bytes(image)), blank()))
}

/// A picture reads back: its shape is given, every register of its palette is
/// declared, every six rows are a band of their own, and every pixel is
/// painted once, in the register that its colour has.
#[verifier::rlimit(50)]
pub proof fn a_picture_reads_back(image: Image)
    ensures
        sixel_bytes(image).take(3) == seq![27u8, 80, 113],
        sixel_bytes(image).skip(sixel_bytes(image).len() - 2) == seq![27u8, 92],
        shown(image).shape == seq![1, 1, image.width as int, image.height as int],
        shown(image).registers == declared(palette_of(image), palette_of(image).len() as int),
        shown(image).band == band_count(image),
        forall|x: int, y: int|
            #![trigger image.at(x, y)]
            0 <= x < image.width && 0 <= y < image.height ==> painted_once(
                shown(image).columns,
                x,
                y,
                index_in(image)[bin_of(image.at(x, y))] as int,
            ),
{
    let w = image.width as int;
    let h = image.height as int;
    let palette = palette_of(image);
    let entries = palette.len() as int;
    let index_of = index_in(image);
    let n = band_count(image);
    reveal_strlit("\u{1b}Pq\"1;1;");
    reveal_strlit("\u{1b}\\");
    reveal_strlit(";");
    let intro = ascii("\u{1b}Pq\"1;1;"@);
    assert(intro =~= seq![27u8, 80, 113, 34, 49, 59, 49, 59]);
    assert(ascii("\u{1b}\\"@) =~= seq![27u8, 92]);
    assert(ascii(";"@) =~= seq![59u8]);
    let q = seq![34u8];
    let p1 = q + number(1);
    let p2 = p1 + ascii(";"@) + number(1);
    let p3 = p2 + ascii(";"@) + number(w);
    let p4 = p3 + ascii(";"@) + number(h);
    let regs = registers(palette, entries);
    let bands = bands_bytes(image, index_of, n, entries);
    assert(number(1) =~= seq![49u8]);
    let bytes = sixel_bytes(image);
    assert(bytes =~= seq![27u8, 80, 113] + (p4 + regs + bands) + seq![27u8, 92]);
    assert(body_of(bytes) =~= p4 + regs + bands);
    assert(bytes.take(3) =~= seq![27u8, 80, 113]);
    assert(bytes.skip(bytes.len() - 2) =~= seq![27u8, 92]);
    let s = blank();
    lemma_read_one(34, s);
    let u = after_byte(s, 34);
    let e = Seq::<int>::empty();
    assert(seq![0int] =~= e.push(0));
    lemma_read_number(1, u, Leader::Shape, e);
    lemma_read_concat(q, number(1), s);
    lemma_next_number(p1, s, u, e.push(1), 1);
    lemma_next_number(p2, s, u, e.push(1).push(1), w);
    lemma_next_number(p3, s, u, e.push(1).push(1).push(w), h);
    let t = read(p4, s);
    assert(concluded(t).shape =~= seq![1, 1, w, h]);
    lemma_read_registers(palette, entries, t);
    lemma_read_concat(p4, regs, s);
    let r = read(regs, t);
    lemma_read_bands(image, index_of, n, entries, r);
    lemma_read_concat(p4 + regs, bands, s);
    assert(shown(image).columns =~= all_columns(image, index_of, n, entries));
    a_palette_is_as_large_as_it_may_be(image);
    assert forall|x: int, y: int|
        #![trigger image.at(x, y)]
        0 <= x < image.width && 0 <= y < image.height implies painted_once(
        shown(image).columns,
        x,
        y,
        index_of[bin_of(image.at(x, y))] as int,
    ) by {
        let k = y * w + x;
        assert(0 <= k < w * h) by (nonlinear_arith)
            requires
                0 <= x < w,
                0 <= y < h,
                k == y * w + x,
        ;
        assert(image.at(x, y) == image.nth(k));
        assert(0 <= bin_of(image.at(x, y)) < BINS);
        lemma_painted_once(image, index_of, entries, x, y);
    }
}

} // verus!
