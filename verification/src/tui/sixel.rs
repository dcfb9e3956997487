//! The sixel protocol: a palette, then bands of six pixel rows, each written
//! once for every colour in it.
use vstd::prelude::*;
use vstd::string::*;

use crate::tui::bytes::ascii;
use crate::tui::bytes::number;
use crate::tui::bytes::push_number;
use crate::tui::bytes::push_repeated;
use crate::tui::bytes::push_text;
use crate::tui::bytes::repeated_byte;
use crate::tui::image::Image;
use crate::tui::image::triple;
use crate::tui::palette::BINS;
use crate::tui::palette::average;
use crate::tui::palette::bin_of;
use crate::tui::palette::boxes_of;
use crate::tui::palette::bucket;
use crate::tui::palette::entry_of;
use crate::tui::palette::quantise;

verus! {

/// How many bytes, from the `i`-th on, are the same.
pub open spec fn run_from(row: Seq<u8>, i: int) -> int
    decreases row.len() - i,
{
    if i + 1 < row.len() && row[i + 1] == row[i] {
        1 + run_from(row, i + 1)
    } else {
        1
    }
}

/// Some columns that are the same: short runs one by one, long ones counted.
pub open spec fn columns(bits: u8, n: int) -> Seq<u8> {
    let c = (63 + bits) as u8;
    if n > 4 {
        ascii("!"@) + number(n) + seq![c]
    } else {
        repeated_byte(c, n)
    }
}

/// The columns of a row from the `i`-th on.
pub open spec fn encoded_row(row: Seq<u8>, i: int) -> Seq<u8>
    decreases row.len() - i,
{
    if i >= row.len() {
        Seq::empty()
    } else {
        let n = run_from(row, i);
        proof {
            lemma_run(row, i);
        }
        columns(row[i], n) + encoded_row(row, i + n)
    }
}

pub proof fn lemma_run(row: Seq<u8>, i: int)
    requires
        i < row.len(),
    ensures
        1 <= run_from(row, i) <= row.len() - i,
        forall|j: int| i <= j < i + run_from(row, i) ==> row[j] == row[i],
        i + run_from(row, i) < row.len() ==> row[i + run_from(row, i)] != row[i],
    decreases row.len() - i,
{
    if i + 1 < row.len() && row[i + 1] == row[i] {
        lemma_run(row, i + 1);
    }
}

/// Writes a row of six-pixel columns.
pub fn run_length(row: &[u8], out: &mut Vec<u8>)
    requires
        forall|i: int| 0 <= i < row@.len() ==> #[trigger] row@[i] <= 192,
    ensures
        final(out)@ == old(out)@ + encoded_row(row@, 0),
{
    let ghost before = out@;
    let n: usize = row.len();
    let mut i: usize = 0;
    assert(out@ + encoded_row(row@, 0) == before + encoded_row(row@, 0));
    while i < n
        invariant
            i <= n == row@.len(),
            before == old(out)@,
            forall|i: int| 0 <= i < row@.len() ==> #[trigger] row@[i] <= 192,
            out@ + encoded_row(row@, i as int) == before + encoded_row(row@, 0),
        decreases n - i,
    {
        let ghost done = out@;
        let bits = row[i];
        let mut run: usize = 1;
        while i + run < n && row[i + run] == bits
            invariant
                1 <= run,
                i + run <= n == row@.len(),
                bits == row@[i as int],
                forall|j: int| i <= j < i + run ==> row@[j] == bits,
            decreases n - run,
        {
            run = run + 1;
        }
        proof {
            lemma_run(row@, i as int);
            if run < run_from(row@, i as int) {
                assert(row@[i + run] == row@[i as int]);
            } else if run > run_from(row@, i as int) {
                assert(row@[i + run_from(row@, i as int)] == bits);
            }
        }
        let ch: u8 = 63 + bits;
        if run > 4 {
            push_text(out, "!");
            push_number(out, run as u64);
            out.push(ch);
            assert(out@ =~= done + columns(bits, run as int));
        } else {
            push_repeated(out, ch, run);
            assert(out@ =~= done + columns(bits, run as int));
        }
        let ghost rest = encoded_row(row@, i + run);
        assert(encoded_row(row@, i as int) == columns(bits, run as int) + rest);
        assert(out@ + rest =~= done + (columns(bits, run as int) + rest));
        i = i + run;
    }
    assert(encoded_row(row@, i as int) =~= Seq::<u8>::empty());
    assert(out@ =~= out@ + encoded_row(row@, i as int));
}

/// Whether a pixel is drawn in an entry of the palette.
pub open spec fn drawn_in(image: Image, index_of: Seq<u8>, entry: int, x: int, y: int) -> bool {
    y < image.height && index_of[bin_of(image.at(x, y))] == entry
}

/// What a row of a band counts for.
pub open spec fn place(d: int) -> int {
    if d == 0 {
        1
    } else if d == 1 {
        2
    } else if d == 2 {
        4
    } else if d == 3 {
        8
    } else if d == 4 {
        16
    } else {
        32
    }
}

/// The first `rows` pixels of a column, as bits: the topmost is the lowest.
pub open spec fn bits(
    image: Image,
    index_of: Seq<u8>,
    entry: int,
    x: int,
    band: int,
    rows: int,
) -> int
    decreases rows,
{
    if rows <= 0 {
        0
    } else {
        bits(image, index_of, entry, x, band, rows - 1) + if drawn_in(
            image,
            index_of,
            entry,
            x,
            band * 6 + rows - 1,
        ) {
            place(rows - 1)
        } else {
            0
        }
    }
}

/// The columns of a band that are drawn in an entry.
pub open spec fn band_row(image: Image, index_of: Seq<u8>, entry: int, band: int) -> Seq<u8> {
    Seq::new(
        image.width as nat,
        |x: int| bits(image, index_of, entry, x, band, 6) as u8,
    )
}

/// A row without the empty columns at its end.
pub open spec fn without_tail(row: Seq<u8>) -> Seq<u8>
    decreases row.len(),
{
    if row.len() > 0 && row.last() == 0 {
        without_tail(row.drop_last())
    } else {
        row
    }
}

/// A band, for the first `entries` of the palette: each that occurs in it is
/// selected and its row written, and the cursor returns in between.
pub open spec fn band_bytes(image: Image, index_of: Seq<u8>, band: int, entries: int) -> Seq<u8>
    decreases entries,
{
    if entries <= 0 {
        Seq::empty()
    } else {
        let before = band_bytes(image, index_of, band, entries - 1);
        let row = without_tail(band_row(image, index_of, entries - 1, band));
        if row.len() == 0 {
            before
        } else {
            before + (if before.len() > 0 {
                ascii("$"@)
            } else {
                Seq::empty()
            }) + ascii("#"@) + number(entries - 1) + encoded_row(row, 0)
        }
    }
}

/// The first `n` bands.
pub open spec fn bands_bytes(image: Image, index_of: Seq<u8>, n: int, entries: int) -> Seq<u8>
    decreases n,
{
    if n <= 0 {
        Seq::empty()
    } else {
        bands_bytes(image, index_of, n - 1, entries) + band_bytes(
            image,
            index_of,
            n - 1,
            entries,
        ) + ascii("-"@)
    }
}

/// A colour component in percent, rounded.
pub open spec fn percent(v: u8) -> int {
    (v * 100 + 127) / 255
}

/// A percentage is the nearest one: it is off by less than half of one.
pub proof fn a_percentage_is_the_nearest(v: u8)
    ensures
        -127 <= 255 * percent(v) - 100 * v <= 127,
        0 <= percent(v) <= 100,
{
}

/// The first `n` entries of a palette.
pub open spec fn registers(palette: Seq<(u8, u8, u8)>, n: int) -> Seq<u8>
    decreases n,
{
    if n <= 0 {
        Seq::empty()
    } else {
        let c = palette[n - 1];
        registers(palette, n - 1) + ascii("#"@) + number(n - 1) + ascii(";2;"@) + number(
            percent(c.0),
        ) + ascii(";"@) + number(percent(c.1)) + ascii(";"@) + number(percent(c.2))
    }
}

/// How many bands a picture has.
pub open spec fn band_count(image: Image) -> int {
    (image.height + 5) / 6
}

/// A picture in a palette.
pub open spec fn sixel_with(
    image: Image,
    palette: Seq<(u8, u8, u8)>,
    index_of: Seq<u8>,
) -> Seq<u8> {
    ascii("\u{1b}Pq\"1;1;"@) + number(image.width as int) + ascii(";"@) + number(
        image.height as int,
    ) + registers(palette, palette.len() as int) + bands_bytes(
        image,
        index_of,
        band_count(image),
        palette.len() as int,
    ) + ascii("\u{1b}\\"@)
}

/// The palette of a picture.
pub open spec fn palette_of(image: Image) -> Seq<(u8, u8, u8)> {
    Seq::new(boxes_of(image).len(), |i: int| average(boxes_of(image)[i]))
}

/// The entry of each bin of a picture.
pub open spec fn index_in(image: Image) -> Seq<u8> {
    Seq::new(BINS as nat, |b: int| entry_of(boxes_of(image), b) as u8)
}

/// A picture as the terminal is sent it.
pub open spec fn sixel_bytes(image: Image) -> Seq<u8> {
    sixel_with(image, palette_of(image), index_in(image))
}

pub proof fn lemma_bits(
    image: Image,
    index_of: Seq<u8>,
    entry: int,
    x: int,
    band: int,
    rows: int,
)
    requires
        0 <= rows <= 6,
    ensures
        0 <= bits(image, index_of, entry, x, band, rows) < (if rows == 6 {
            64
        } else {
            place(rows)
        }),
    decreases rows,
{
    if rows > 0 {
        lemma_bits(image, index_of, entry, x, band, rows - 1);
    }
}

proof fn lemma_bin_range(p: (u8, u8, u8))
    ensures
        0 <= bin_of(p) < BINS,
{
}

proof fn lemma_digit_of(v: int, unit: int, low: int, b: int, high: int)
    by (nonlinear_arith)
    requires
        unit > 0,
        v == low + unit * (b + 2 * high),
        0 <= low < unit,
        0 <= b <= 1,
    ensures
        v / unit % 2 == b,
{
}

proof fn lemma_place(
    image: Image,
    index_of: Seq<u8>,
    entry: int,
    x: int,
    band: int,
    d: int,
)
    requires
        0 <= d < 6,
    ensures
        bits(image, index_of, entry, x, band, 6) / place(d) % 2 == 1 <==> drawn_in(
            image,
            index_of,
            entry,
            x,
            band * 6 + d,
        ),
{
    let v = bits(image, index_of, entry, x, band, 6);
    let low = bits(image, index_of, entry, x, band, d);
    let b: int = if drawn_in(image, index_of, entry, x, band * 6 + d) {
        1
    } else {
        0
    };
    lemma_bits(image, index_of, entry, x, band, d);
    let high = lemma_upper_bits(image, index_of, entry, x, band, d + 1, 6);
    assert(v == low + place(d) * b + 2 * place(d) * high);
    assert(low + place(d) * b + 2 * place(d) * high == low + place(d) * (b + 2 * high))
        by (nonlinear_arith);
    lemma_digit_of(v, place(d), low, b, high);
}

/// The rows above the `from`-th count in whole multiples of it.
proof fn lemma_upper_bits(
    image: Image,
    index_of: Seq<u8>,
    entry: int,
    x: int,
    band: int,
    from: int,
    to: int,
) -> (high: int)
    requires
        1 <= from <= to <= 6,
    ensures
        bits(image, index_of, entry, x, band, to) == bits(image, index_of, entry, x, band, from) + 2
            * place(from - 1) * high,
    decreases to - from,
{
    if to == from {
        0
    } else {
        let above = lemma_upper_bits(image, index_of, entry, x, band, from, to - 1);
        let unit = 2 * place(from - 1);
        let times: int = if to - from == 1 {
            1
        } else if to - from == 2 {
            2
        } else if to - from == 3 {
            4
        } else if to - from == 4 {
            8
        } else {
            16
        };
        assert(place(to - 1) == unit * times);
        let b: int = if drawn_in(image, index_of, entry, x, band * 6 + to - 1) {
            1
        } else {
            0
        };
        assert(unit * above + unit * times * b == unit * (above + times * b)) by (nonlinear_arith);
        above + times * b
    }
}

/// A pixel is drawn in one colour and no other: of the rows of its band, the
/// one of its own entry of the palette has its bit.
pub proof fn a_pixel_is_drawn_once(image: Image, index_of: Seq<u8>, entry: int, x: int, y: int)
    requires
        0 <= x < image.width,
        0 <= y < image.height,
    ensures
        band_row(image, index_of, entry, y / 6)[x] as int / place(y % 6) % 2 == 1 <==> entry
            == index_of[bin_of(image.at(x, y))],
{
    lemma_bits(image, index_of, entry, x, y / 6, 6);
    lemma_place(image, index_of, entry, x, y / 6, y % 6);
    assert(y / 6 * 6 + y % 6 == y);
}

fn push_registers(out: &mut Vec<u8>, palette: &Vec<[u8; 3]>, Ghost(colours): Ghost<Seq<(u8, u8, u8)>>)
    requires
        colours.len() == palette@.len(),
        forall|i: int| 0 <= i < colours.len() ==> triple(#[trigger] palette@[i]) == colours[i],
    ensures
        final(out)@ == old(out)@ + registers(colours, colours.len() as int),
{
    let ghost before = out@;
    let n: usize = palette.len();
    let mut i: usize = 0;
    while i < n
        invariant
            i <= n == palette@.len() == colours.len(),
            forall|i: int| 0 <= i < colours.len() ==> triple(#[trigger] palette@[i]) == colours[i],
            out@ =~= before + registers(colours, i as int),
        decreases n - i,
    {
        let c = palette[i];
        assert(triple(palette@[i as int]) == colours[i as int]);
        push_text(out, "#");
        push_number(out, i as u64);
        push_text(out, ";2;");
        push_number(out, (c[0] as u64 * 100 + 127) / 255);
        push_text(out, ";");
        push_number(out, (c[1] as u64 * 100 + 127) / 255);
        push_text(out, ";");
        push_number(out, (c[2] as u64 * 100 + 127) / 255);
        i = i + 1;
    }
}

/// The rows of a band, one for each entry of the palette.
fn masks(image: &Image, index_of: &Vec<u8>, band: u32, entries: usize) -> (mask: Vec<Vec<u8>>)
    requires
        index_of@.len() == BINS,
        forall|b: int| 0 <= b < BINS ==> (#[trigger] index_of@[b]) < entries,
        band * 6 <= image.height,
    ensures
        mask@.len() == entries,
        forall|e: int|
            0 <= e < entries ==> (#[trigger] mask@[e])@ == band_row(
                *image,
                index_of@,
                e,
                band as int,
            ),
{
    let w: usize = image.width as usize;
    let mut mask: Vec<Vec<u8>> = Vec::new();
    let mut e: usize = 0;
    while e < entries
        invariant
            e <= entries,
            mask@.len() == e,
            forall|k: int|
                0 <= k < e ==> (#[trigger] mask@[k])@ =~= repeated_byte(0, w as int),
        decreases entries - e,
    {
        let mut row: Vec<u8> = Vec::new();
        push_repeated(&mut row, 0, w);
        assert(row@ =~= repeated_byte(0, w as int));
        mask.push(row);
        e = e + 1;
    }
    let mut x: u32 = 0;
    while x < image.width
        invariant
            x <= image.width == w,
            mask@.len() == entries,
            index_of@.len() == BINS,
            forall|b: int| 0 <= b < BINS ==> (#[trigger] index_of@[b]) < entries,
            band * 6 <= image.height,
            forall|k: int| 0 <= k < entries ==> (#[trigger] mask@[k])@.len() == w,
            forall|k: int, c: int|
                0 <= k < entries && 0 <= c < w ==> (#[trigger] mask@[k]@[c]) as int == bits(
                    *image,
                    index_of@,
                    k,
                    c,
                    band as int,
                    if c < x {
                        6
                    } else {
                        0
                    },
                ),
        decreases image.width - x,
    {
        let mut dy: u32 = 0;
        let mut bit: u8 = 1;
        while dy < 6
            invariant
                dy <= 6,
                x < image.width == w,
                mask@.len() == entries,
                index_of@.len() == BINS,
                forall|b: int| 0 <= b < BINS ==> (#[trigger] index_of@[b]) < entries,
                band * 6 <= image.height,
                dy < 6 ==> bit == place(dy as int),
                forall|k: int| 0 <= k < entries ==> (#[trigger] mask@[k])@.len() == w,
                forall|k: int, c: int|
                    0 <= k < entries && 0 <= c < w ==> (#[trigger] mask@[k]@[c]) as int == bits(
                        *image,
                        index_of@,
                        k,
                        c,
                        band as int,
                        if c < x {
                            6
                        } else if c == x {
                            dy as int
                        } else {
                            0
                        },
                    ),
            decreases 6 - dy,
        {
            let left = image.height - band * 6;
            let ghost before = mask@;
            if dy < left {
                let y = band * 6 + dy;
                let px = image.pixel(x, y);
                proof {
                    lemma_bin_range(triple(px));
                }
                let entry = index_of[bucket(px)] as usize;
                proof {
                    lemma_bits(
                        *image,
                        index_of@,
                        entry as int,
                        x as int,
                        band as int,
                        dy as int,
                    );
                }
                let v = mask[entry][x as usize];
                mask[entry][x as usize] = v + bit;
                assert forall|k: int, c: int| 0 <= k < entries && 0 <= c < w implies (
                #[trigger] mask@[k]@[c]) as int == bits(
                    *image,
                    index_of@,
                    k,
                    c,
                    band as int,
                    if c < x {
                        6
                    } else if c == x {
                        dy as int + 1
                    } else {
                        0
                    },
                ) by {
                    assert(before[k]@[c] as int == bits(
                        *image,
                        index_of@,
                        k,
                        c,
                        band as int,
                        if c < x {
                            6
                        } else if c == x {
                            dy as int
                        } else {
                            0
                        },
                    ));
                }
            }
            if dy < 5 {
                bit = bit * 2;
            }
            dy = dy + 1;
        }
        x = x + 1;
    }
    assert forall|e: int| 0 <= e < entries implies (#[trigger] mask@[e])@ == band_row(
        *image,
        index_of@,
        e,
        band as int,
    ) by {
        assert forall|c: int| 0 <= c < w implies mask@[e]@[c] == band_row(
            *image,
            index_of@,
            e,
            band as int,
        )[c] by {
            lemma_bits(*image, index_of@, e, c, band as int, 6);
        }
        assert(mask@[e]@ =~= band_row(*image, index_of@, e, band as int));
    }
    mask
}

/// How many columns a row has before the empty ones at its end.
fn used_columns(row: &Vec<u8>) -> (end: usize)
    ensures
        end <= row@.len(),
        row@.take(end as int) == without_tail(row@),
{
    let mut end: usize = row.len();
    assert(row@.take(end as int) =~= row@);
    while end > 0 && row[end - 1] == 0
        invariant
            end <= row@.len(),
            without_tail(row@.take(end as int)) == without_tail(row@),
        decreases end,
    {
        assert(row@.take(end as int).drop_last() =~= row@.take(end as int - 1));
        end = end - 1;
    }
    end
}

fn push_band(out: &mut Vec<u8>, image: &Image, index_of: &Vec<u8>, band: u32, entries: usize)
    requires
        index_of@.len() == BINS,
        forall|b: int| 0 <= b < BINS ==> (#[trigger] index_of@[b]) < entries,
        band * 6 <= image.height,
    ensures
        final(out)@ == old(out)@ + band_bytes(*image, index_of@, band as int, entries as int),
{
    let ghost before = out@;
    let mask = masks(image, index_of, band, entries);
    let mut first = true;
    let mut e: usize = 0;
    while e < entries
        invariant
            e <= entries == mask@.len(),
            forall|e: int|
                0 <= e < entries ==> (#[trigger] mask@[e])@ == band_row(
                    *image,
                    index_of@,
                    e,
                    band as int,
                ),
            out@ =~= before + band_bytes(*image, index_of@, band as int, e as int),
            first == (band_bytes(*image, index_of@, band as int, e as int).len() == 0),
        decreases entries - e,
    {
        let ghost so_far = band_bytes(*image, index_of@, band as int, e as int);
        let ghost next = band_bytes(*image, index_of@, band as int, e as int + 1);
        assert(mask@[e as int]@ == band_row(*image, index_of@, e as int, band as int));
        let row = &mask[e];
        let end = used_columns(row);
        let ghost t = without_tail(row@);
        if end > 0 {
            if !first {
                push_text(out, "$");
            }
            first = false;
            push_text(out, "#");
            push_number(out, e as u64);
            let mut cut: Vec<u8> = Vec::new();
            let mut i: usize = 0;
            while i < end
                invariant
                    i <= end <= row@.len(),
                    cut@ =~= row@.take(i as int),
                decreases end - i,
            {
                cut.push(row[i]);
                i = i + 1;
            }
            assert(cut@ == t);
            assert forall|i: int| 0 <= i < cut@.len() implies #[trigger] cut@[i] <= 192 by {
                lemma_bits(*image, index_of@, e as int, i, band as int, 6);
                assert(cut@[i] == row@[i]);
            }
            run_length(cut.as_slice(), out);
            proof {
                reveal_strlit("#");
                reveal_strlit("$");
                assert(out@ =~= before + next);
                assert(ascii("#"@).len() == 1);
                assert(next.len() >= 1);
            }
        } else {
            assert(t.len() == 0);
        }
        e = e + 1;
    }
}

/// Sixel, with a palette made for the picture.
pub fn sixel(image: &Image) -> (out: Vec<u8>)
    ensures
        out@ == sixel_bytes(*image),
{
    let (palette, index_of) = quantise(image);
    let ghost colours = palette_of(*image);
    assert(index_of@ =~= index_in(*image));
    assert(colours.len() == palette@.len());
    let entries: usize = palette.len();
    let mut out: Vec<u8> = Vec::new();
    push_text(&mut out, "\u{1b}Pq\"1;1;");
    push_number(&mut out, image.width as u64);
    push_text(&mut out, ";");
    push_number(&mut out, image.height as u64);
    push_registers(&mut out, &palette, Ghost(colours));
    let ghost head = out@;
    let bands: u32 = image.height / 6 + (if image.height % 6 == 0 {
        0
    } else {
        1
    });
    assert(bands == band_count(*image));
    let mut band: u32 = 0;
    while band < bands
        invariant
            band <= bands == band_count(*image),
            index_of@ == index_in(*image),
            index_of@.len() == BINS,
            forall|b: int| 0 <= b < BINS ==> (#[trigger] index_of@[b]) < entries,
            out@ =~= head + bands_bytes(*image, index_of@, band as int, entries as int),
        decreases bands - band,
    {
        push_band(&mut out, image, &index_of, band, entries);
        push_text(&mut out, "-");
        band = band + 1;
    }
    push_text(&mut out, "\u{1b}\\");
    assert(out@ =~= sixel_bytes(*image));
    out
}

/// A band begins with the choice of a register: the cursor returns only between
/// two of them.
pub proof fn a_band_begins_with_a_register(
    image: Image,
    index_of: Seq<u8>,
    band: int,
    entries: int,
)
    ensures
        band_bytes(image, index_of, band, entries).len() > 0 ==> band_bytes(
            image,
            index_of,
            band,
            entries,
        )[0] == 35,
    decreases entries,
{
    if entries > 0 {
        a_band_begins_with_a_register(image, index_of, band, entries - 1);
        reveal_strlit("#");
        assert("#"@.len() == 1 && "#"@[0] == '#');
        assert(ascii("#"@)[0] == 35);
    }
}

} // verus!
