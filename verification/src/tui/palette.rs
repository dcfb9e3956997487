//! The colours of a picture that a terminal is given: a median cut over the
//! picture's own histogram.
use vstd::prelude::*;

use crate::present::fit::lemma_u32_product;
use crate::tui::image::Image;
use crate::tui::image::triple;

verus! {

/// How many bins the histogram has: six bits for each of the three colours.
pub const BINS: usize = 262144;

/// The most colours that a palette may have.
pub const MAX_COLOURS: usize = 256;

/// The bin of a colour.
pub open spec fn bin_of(p: (u8, u8, u8)) -> int {
    (p.0 as int / 4) * 4096 + (p.1 as int / 4) * 64 + p.2 as int / 4
}

/// The bin of a colour.
pub fn bucket(px: [u8; 3]) -> (b: usize)
    ensures
        b == bin_of(triple(px)),
        b < BINS,
{
    (px[0] as usize / 4) * 4096 + (px[1] as usize / 4) * 64 + px[2] as usize / 4
}

/// An occupied bin: how many pixels fell in it, and the totals of their
/// colours.
#[derive(Clone, Copy, Debug, PartialEq, Eq, Structural)]
pub struct Bin {
    pub bucket: u32,
    pub count: u128,
    pub red: u128,
    pub green: u128,
    pub blue: u128,
}

/// One of the totals of a bin; the bin itself counts as one.
pub open spec fn part(b: Bin, which: int) -> int {
    if which == 0 {
        1
    } else if which == 1 {
        b.count as int
    } else if which == 2 {
        b.red as int
    } else if which == 3 {
        b.green as int
    } else {
        b.blue as int
    }
}

/// The total over a list of bins.
pub open spec fn measure(bins: Seq<Bin>, which: int) -> int
    decreases bins.len(),
{
    if bins.len() == 0 {
        0
    } else {
        measure(bins.drop_last(), which) + part(bins.last(), which)
    }
}

/// The totals of the bin `b` over the first `n` pixels.
pub open spec fn tally(image: Image, n: int, b: int) -> (int, int, int, int)
    decreases n,
{
    if n <= 0 {
        (0, 0, 0, 0)
    } else {
        let before = tally(image, n - 1, b);
        let p = image.nth(n - 1);
        if bin_of(p) == b {
            (before.0 + 1, before.1 + p.0, before.2 + p.1, before.3 + p.2)
        } else {
            before
        }
    }
}

/// The occupied bins of the first `n` pixels, in the order in which they were
/// first seen.
pub open spec fn histogram(image: Image, n: int) -> Seq<Bin>
    decreases n,
{
    if n <= 0 {
        Seq::empty()
    } else {
        let before = histogram(image, n - 1);
        let p = image.nth(n - 1);
        match slot(before, bin_of(p)) {
            Some(i) => before.update(i, grown(before[i], p)),
            None => before.push(fresh(p)),
        }
    }
}

/// Where a bin stands in a list.
pub open spec fn slot(bins: Seq<Bin>, b: int) -> Option<int>
    decreases bins.len(),
{
    if bins.len() == 0 {
        None
    } else if bins.last().bucket == b {
        Some(bins.len() - 1)
    } else {
        slot(bins.drop_last(), b)
    }
}

/// A bin with one pixel more.
pub open spec fn grown(b: Bin, p: (u8, u8, u8)) -> Bin {
    Bin {
        bucket: b.bucket,
        count: (b.count + 1) as u128,
        red: (b.red + p.0) as u128,
        green: (b.green + p.1) as u128,
        blue: (b.blue + p.2) as u128,
    }
}

/// A bin of one pixel.
pub open spec fn fresh(p: (u8, u8, u8)) -> Bin {
    Bin {
        bucket: bin_of(p) as u32,
        count: 1,
        red: p.0 as u128,
        green: p.1 as u128,
        blue: p.2 as u128,
    }
}

/// One of the three coordinates of a bin.
pub open spec fn channel(b: Bin, axis: int) -> int {
    if axis == 0 {
        b.bucket as int / 4096
    } else if axis == 1 {
        b.bucket as int / 64 % 64
    } else {
        b.bucket as int % 64
    }
}

/// The lowest coordinate of a list of bins.
pub open spec fn lowest(bins: Seq<Bin>, axis: int) -> int
    decreases bins.len(),
{
    if bins.len() == 0 {
        63
    } else {
        let l = lowest(bins.drop_last(), axis);
        let c = channel(bins.last(), axis);
        if c < l {
            c
        } else {
            l
        }
    }
}

/// The highest coordinate of a list of bins.
pub open spec fn highest(bins: Seq<Bin>, axis: int) -> int
    decreases bins.len(),
{
    if bins.len() == 0 {
        0
    } else {
        let h = highest(bins.drop_last(), axis);
        let c = channel(bins.last(), axis);
        if c > h {
            c
        } else {
            h
        }
    }
}

/// How far a list of bins reaches along an axis.
pub open spec fn spread(bins: Seq<Bin>, axis: int) -> int {
    highest(bins, axis) - lowest(bins, axis)
}

/// The axis along which a list of bins reaches furthest; the last of equals.
pub open spec fn widest(bins: Seq<Bin>) -> int {
    let r = spread(bins, 0);
    let g = spread(bins, 1);
    let b = spread(bins, 2);
    if b >= g && b >= r {
        2
    } else if g >= r {
        1
    } else {
        0
    }
}

/// What it costs to draw the pixels of some bins in one colour: how many there
/// are, times how far they reach.
pub open spec fn price(bins: Seq<Bin>) -> int {
    measure(bins, 1) * spread(bins, widest(bins))
}

/// The box that costs the most, of those that can be cut; the last of equals.
pub open spec fn costliest(boxes: Seq<Seq<Bin>>) -> Option<int>
    decreases boxes.len(),
{
    if boxes.len() == 0 {
        None
    } else {
        let before = costliest(boxes.drop_last());
        if boxes.last().len() <= 1 {
            before
        } else {
            match before {
                None => Some(boxes.len() - 1),
                Some(i) => if price(boxes.last()) >= price(boxes[i]) {
                    Some(boxes.len() - 1)
                } else {
                    Some(i)
                },
            }
        }
    }
}

/// The bins at one coordinate of an axis, in their order.
pub open spec fn level(bins: Seq<Bin>, axis: int, key: int) -> Seq<Bin>
    decreases bins.len(),
{
    if bins.len() == 0 {
        Seq::empty()
    } else if channel(bins.last(), axis) == key {
        level(bins.drop_last(), axis, key).push(bins.last())
    } else {
        level(bins.drop_last(), axis, key)
    }
}

/// The bins below a coordinate of an axis, in the order of that coordinate.
pub open spec fn levels(bins: Seq<Bin>, axis: int, keys: int) -> Seq<Bin>
    decreases keys,
{
    if keys <= 0 {
        Seq::empty()
    } else {
        levels(bins, axis, keys - 1) + level(bins, axis, keys - 1)
    }
}

/// The bins in the order of an axis; equals keep their order.
pub open spec fn sorted(bins: Seq<Bin>, axis: int) -> Seq<Bin> {
    levels(bins, axis, 64)
}

/// How many bins, of at least `from`, hold half of the pixels.
pub open spec fn half(bins: Seq<Bin>, from: int) -> int
    decreases bins.len() - from,
{
    if from >= bins.len() || 2 * measure(bins.take(from), 1) >= measure(bins, 1) {
        from
    } else {
        half(bins, from + 1)
    }
}

/// Where a list of bins is cut: at the weighted median, with something on
/// either side.
pub open spec fn median(bins: Seq<Bin>) -> int {
    let h = half(bins, 1);
    if h > bins.len() - 1 {
        bins.len() - 1
    } else {
        h
    }
}

/// The boxes with one cut in two; its upper half comes last.
pub open spec fn cut(boxes: Seq<Seq<Bin>>, i: int) -> Seq<Seq<Bin>> {
    let s = sorted(boxes[i], widest(boxes[i]));
    boxes.update(i, s.take(median(s))).push(s.skip(median(s)))
}

/// Boxes cut until there are as many as a palette may have, or none can be
/// cut.
pub open spec fn divided(boxes: Seq<Seq<Bin>>) -> Seq<Seq<Bin>>
    decreases MAX_COLOURS - boxes.len(),
{
    if boxes.len() >= MAX_COLOURS {
        boxes
    } else {
        match costliest(boxes) {
            None => boxes,
            Some(i) => {
                proof {
                    lemma_costliest(boxes);
                }
                divided(cut(boxes, i))
            },
        }
    }
}

pub proof fn lemma_costliest(boxes: Seq<Seq<Bin>>)
    ensures
        match costliest(boxes) {
            Some(i) => 0 <= i < boxes.len() && boxes[i].len() > 1,
            None => forall|i: int| 0 <= i < boxes.len() ==> (#[trigger] boxes[i]).len() <= 1,
        },
    decreases boxes.len(),
{
    if boxes.len() > 0 {
        let before = boxes.drop_last();
        lemma_costliest(before);
        assert forall|i: int|
            costliest(boxes) is None && 0 <= i < boxes.len() implies #[trigger] boxes[i].len()
            <= 1 by {
            if i < before.len() {
                assert(before[i] == boxes[i]);
            }
        }
    }
}

/// The boxes that the colours of a picture fall into.
pub open spec fn boxes_of(image: Image) -> Seq<Seq<Bin>> {
    divided(seq![histogram(image, image.area())])
}

/// The average colour of some bins; black where there are none.
pub open spec fn average(bins: Seq<Bin>) -> (u8, u8, u8) {
    let n = measure(bins, 1);
    if n == 0 {
        (0u8, 0u8, 0u8)
    } else {
        (
            (measure(bins, 2) / n) as u8,
            (measure(bins, 3) / n) as u8,
            (measure(bins, 4) / n) as u8,
        )
    }
}

/// The last box that holds a bin; the first box where none does.
pub open spec fn entry_of(boxes: Seq<Seq<Bin>>, b: int) -> int
    decreases boxes.len(),
{
    if boxes.len() == 0 {
        0
    } else if slot(boxes.last(), b) is Some {
        boxes.len() - 1
    } else {
        entry_of(boxes.drop_last(), b)
    }
}

/// A bin whose totals are those of bytes.
pub open spec fn fits(b: Bin) -> bool {
    &&& b.bucket < BINS
    &&& b.count >= 1
    &&& b.red <= 255 * b.count
    &&& b.green <= 255 * b.count
    &&& b.blue <= 255 * b.count
}

proof fn lemma_measure_concat(a: Seq<Bin>, b: Seq<Bin>, which: int)
    ensures
        measure(a + b, which) == measure(a, which) + measure(b, which),
    decreases b.len(),
{
    if b.len() == 0 {
        assert(a + b =~= a);
    } else {
        assert((a + b).drop_last() =~= a + b.drop_last());
        lemma_measure_concat(a, b.drop_last(), which);
    }
}

proof fn lemma_measure_update(bins: Seq<Bin>, i: int, b: Bin, which: int)
    requires
        0 <= i < bins.len(),
    ensures
        measure(bins.update(i, b), which) == measure(bins, which) - part(bins[i], which) + part(
            b,
            which,
        ),
    decreases bins.len(),
{
    let u = bins.update(i, b);
    if i == bins.len() - 1 {
        assert(u.drop_last() =~= bins.drop_last());
    } else {
        assert(u.drop_last() =~= bins.drop_last().update(i, b));
        lemma_measure_update(bins.drop_last(), i, b, which);
    }
}

proof fn lemma_slot(bins: Seq<Bin>, b: int)
    ensures
        match slot(bins, b) {
            Some(i) => 0 <= i < bins.len() && bins[i].bucket == b,
            None => forall|i: int| 0 <= i < bins.len() ==> (#[trigger] bins[i]).bucket != b,
        },
    decreases bins.len(),
{
    if bins.len() > 0 {
        let before = bins.drop_last();
        lemma_slot(before, b);
        assert forall|i: int| slot(bins, b) is None && 0 <= i < bins.len() implies (
        #[trigger] bins[i]).bucket != b by {
            if i < before.len() {
                assert(before[i] == bins[i]);
            }
        }
    }
}

/// The bins of a list are all different.
pub open spec fn apart(bins: Seq<Bin>) -> bool {
    forall|i: int, j: int|
        0 <= i < j < bins.len() ==> (#[trigger] bins[i]).bucket != (#[trigger] bins[j]).bucket
}

/// A histogram has a bin for each bin that a pixel falls into and no other,
/// each once, with the totals of its pixels.
pub proof fn a_histogram_tallies_every_pixel(image: Image, n: int)
    requires
        0 <= n,
        255 * n <= u128::MAX,
    ensures
        ({
            let bins = histogram(image, n);
            &&& apart(bins)
            &&& measure(bins, 1) == n
            &&& forall|i: int|
                0 <= i < bins.len() ==> fits(#[trigger] bins[i]) && tally(
                    image,
                    n,
                    bins[i].bucket as int,
                ) == (
                    bins[i].count as int,
                    bins[i].red as int,
                    bins[i].green as int,
                    bins[i].blue as int,
                )
            &&& forall|k: int| 0 <= k < n ==> slot(bins, bin_of(#[trigger] image.nth(k))) is Some
        }),
    decreases n,
{
    if n > 0 {
        a_histogram_tallies_every_pixel(image, n - 1);
        let before = histogram(image, n - 1);
        let bins = histogram(image, n);
        let p = image.nth(n - 1);
        let b = bin_of(p);
        lemma_slot(before, b);
        match slot(before, b) {
            Some(i) => {
                lemma_part_of_measure(before, i);
                lemma_measure_update(before, i, grown(before[i], p), 1);
            },
            None => {
                lemma_tally_absent(image, n - 1, b);
                assert(bins.drop_last() =~= before);
            },
        }
        assert forall|i: int| 0 <= i < bins.len() implies fits(#[trigger] bins[i]) && tally(
            image,
            n,
            bins[i].bucket as int,
        ) == (
            bins[i].count as int,
            bins[i].red as int,
            bins[i].green as int,
            bins[i].blue as int,
        ) by {
            if i < before.len() {
                assert(fits(before[i]));
            }
        }
        assert forall|k: int| 0 <= k < n implies slot(
            bins,
            bin_of(#[trigger] image.nth(k)),
        ) is Some by {
            let c = bin_of(image.nth(k));
            lemma_slot(bins, c);
            if k < n - 1 {
                lemma_slot(before, c);
                assert(bins[slot(before, c)->Some_0].bucket == c);
            } else {
                match slot(before, b) {
                    Some(i) => {
                        assert(bins[i].bucket == c);
                    },
                    None => {
                        assert(bins[before.len() as int].bucket == c);
                    },
                }
            }
        }
    }
}

proof fn lemma_part_of_measure(bins: Seq<Bin>, i: int)
    requires
        0 <= i < bins.len(),
        forall|j: int| 0 <= j < bins.len() ==> fits(#[trigger] bins[j]),
    ensures
        bins[i].count <= measure(bins, 1),
        0 <= measure(bins, 1),
        0 <= measure(bins, 2) <= 255 * measure(bins, 1),
        0 <= measure(bins, 3) <= 255 * measure(bins, 1),
        0 <= measure(bins, 4) <= 255 * measure(bins, 1),
    decreases bins.len(),
{
    let before = bins.drop_last();
    assert(fits(bins.last()));
    assert forall|j: int| 0 <= j < before.len() implies fits(#[trigger] before[j]) by {
        assert(before[j] == bins[j]);
    }
    if before.len() > 0 {
        if i < before.len() {
            assert(before[i] == bins[i]);
        }
        lemma_part_of_measure(
            before,
            if i < before.len() {
                i
            } else {
                0
            },
        );
    }
}

proof fn lemma_tally_absent(image: Image, n: int, b: int)
    requires
        0 <= n,
        255 * n <= u128::MAX,
        slot(histogram(image, n), b) is None,
    ensures
        tally(image, n, b) == (0int, 0int, 0int, 0int),
    decreases n,
{
    if n > 0 {
        let before = histogram(image, n - 1);
        let bins = histogram(image, n);
        let p = image.nth(n - 1);
        lemma_slot(bins, b);
        lemma_slot(before, b);
        lemma_slot(before, bin_of(p));
        match slot(before, bin_of(p)) {
            Some(i) => {
                assert(bins[i].bucket == before[i].bucket);
                if slot(before, b) is Some {
                    let j = slot(before, b)->Some_0;
                    assert(bins[j].bucket == before[j].bucket);
                }
            },
            None => {
                assert(bins[before.len() as int] == fresh(p));
                if slot(before, b) is Some {
                    let j = slot(before, b)->Some_0;
                    assert(bins[j] == before[j]);
                }
            },
        }
        lemma_tally_absent(image, n - 1, b);
    }
}

proof fn lemma_level(bins: Seq<Bin>, axis: int, key: int)
    ensures
        level(bins, axis, key).len() <= bins.len(),
        forall|i: int|
            0 <= i < level(bins, axis, key).len() ==> bins.contains(
                #[trigger] level(bins, axis, key)[i],
            ),
        forall|i: int|
            0 <= i < bins.len() && channel(#[trigger] bins[i], axis) == key ==> level(
                bins,
                axis,
                key,
            ).contains(bins[i]),
    decreases bins.len(),
{
    if bins.len() > 0 {
        let before = bins.drop_last();
        let l = level(bins, axis, key);
        let m = level(before, axis, key);
        lemma_level(before, axis, key);
        assert forall|i: int| 0 <= i < l.len() implies bins.contains(#[trigger] l[i]) by {
            if i < m.len() {
                assert(l[i] == m[i]);
                let j = choose|j: int| 0 <= j < before.len() && before[j] == m[i];
                assert(bins[j] == l[i]);
            } else {
                assert(bins[bins.len() - 1] == l[i]);
            }
        }
        assert forall|i: int|
            0 <= i < bins.len() && channel(#[trigger] bins[i], axis) == key implies l.contains(
            bins[i],
        ) by {
            if i < before.len() {
                assert(before[i] == bins[i]);
                let j = choose|j: int| 0 <= j < m.len() && m[j] == bins[i];
                assert(l[j] == bins[i]);
            } else {
                assert(l[m.len() as int] == bins[i]);
            }
        }
    }
}

/// The total over the bins below a coordinate.
spec fn below(bins: Seq<Bin>, axis: int, keys: int, which: int) -> int
    decreases bins.len(),
{
    if bins.len() == 0 {
        0
    } else {
        below(bins.drop_last(), axis, keys, which) + if channel(bins.last(), axis) < keys {
            part(bins.last(), which)
        } else {
            0
        }
    }
}

proof fn lemma_level_measure(bins: Seq<Bin>, axis: int, key: int, which: int)
    ensures
        measure(level(bins, axis, key), which) == below(bins, axis, key + 1, which) - below(
            bins,
            axis,
            key,
            which,
        ),
    decreases bins.len(),
{
    if bins.len() > 0 {
        lemma_level_measure(bins.drop_last(), axis, key, which);
        let m = level(bins.drop_last(), axis, key);
        assert(m.push(bins.last()).drop_last() =~= m);
    }
}

proof fn lemma_below_ends(bins: Seq<Bin>, axis: int, which: int)
    requires
        forall|j: int| 0 <= j < bins.len() ==> fits(#[trigger] bins[j]),
    ensures
        below(bins, axis, 0, which) == 0,
        below(bins, axis, 64, which) == measure(bins, which),
    decreases bins.len(),
{
    if bins.len() > 0 {
        assert(fits(bins.last()));
        let before = bins.drop_last();
        assert forall|j: int| 0 <= j < before.len() implies fits(#[trigger] before[j]) by {
            assert(before[j] == bins[j]);
        }
        lemma_below_ends(before, axis, which);
    }
}

proof fn lemma_levels(bins: Seq<Bin>, axis: int, keys: int, which: int)
    requires
        0 <= keys,
        forall|j: int| 0 <= j < bins.len() ==> fits(#[trigger] bins[j]),
    ensures
        measure(levels(bins, axis, keys), which) == below(bins, axis, keys, which),
        forall|i: int|
            0 <= i < levels(bins, axis, keys).len() ==> bins.contains(
                #[trigger] levels(bins, axis, keys)[i],
            ),
        forall|i: int|
            0 <= i < bins.len() && channel(#[trigger] bins[i], axis) < keys ==> levels(
                bins,
                axis,
                keys,
            ).contains(bins[i]),
    decreases keys,
{
    if keys == 0 {
        lemma_below_ends(bins, axis, which);
        assert forall|i: int| 0 <= i < bins.len() implies channel(#[trigger] bins[i], axis)
            >= 0 by {
            assert(fits(bins[i]));
        }
    } else {
        lemma_levels(bins, axis, keys - 1, which);
        lemma_level(bins, axis, keys - 1);
        lemma_level_measure(bins, axis, keys - 1, which);
        let a = levels(bins, axis, keys - 1);
        let b = level(bins, axis, keys - 1);
        let all = levels(bins, axis, keys);
        lemma_measure_concat(a, b, which);
        assert forall|i: int| 0 <= i < all.len() implies bins.contains(#[trigger] all[i]) by {
            if i < a.len() {
                assert(all[i] == a[i]);
            } else {
                assert(all[i] == b[i - a.len()]);
            }
        }
        assert forall|i: int|
            0 <= i < bins.len() && channel(#[trigger] bins[i], axis) < keys implies all.contains(
            bins[i],
        ) by {
            if channel(bins[i], axis) < keys - 1 {
                let j = choose|j: int| 0 <= j < a.len() && a[j] == bins[i];
                assert(all[j] == bins[i]);
            } else {
                let j = choose|j: int| 0 <= j < b.len() && b[j] == bins[i];
                assert(all[a.len() + j] == bins[i]);
            }
        }
    }
}

proof fn lemma_measure_counts(bins: Seq<Bin>)
    ensures
        measure(bins, 0) == bins.len(),
    decreases bins.len(),
{
    if bins.len() > 0 {
        lemma_measure_counts(bins.drop_last());
    }
}

/// Sorting bins neither loses nor adds one.
proof fn lemma_sorted(bins: Seq<Bin>, axis: int)
    requires
        forall|j: int| 0 <= j < bins.len() ==> fits(#[trigger] bins[j]),
    ensures
        sorted(bins, axis).len() == bins.len(),
        forall|which: int| #[trigger] measure(sorted(bins, axis), which) == measure(bins, which),
        forall|j: int| 0 <= j < bins.len() ==> fits(#[trigger] sorted(bins, axis)[j]),
        forall|j: int|
            0 <= j < bins.len() ==> sorted(bins, axis).contains(#[trigger] bins[j]),
        forall|j: int|
            0 <= j < bins.len() ==> bins.contains(#[trigger] sorted(bins, axis)[j]),
{
    let s = sorted(bins, axis);
    assert forall|which: int| #[trigger] measure(s, which) == measure(bins, which) by {
        lemma_levels(bins, axis, 64, which);
        lemma_below_ends(bins, axis, which);
    }
    lemma_levels(bins, axis, 64, 0);
    lemma_measure_counts(s);
    lemma_measure_counts(bins);
    assert(measure(s, 0) == measure(bins, 0));
    assert forall|j: int| 0 <= j < bins.len() implies fits(#[trigger] s[j]) by {
        assert(bins.contains(s[j]));
    }
    assert forall|j: int| 0 <= j < bins.len() implies s.contains(#[trigger] bins[j]) by {
        assert(fits(bins[j]));
        assert(channel(bins[j], axis) < 64);
    }
}

proof fn lemma_half(bins: Seq<Bin>, from: int)
    requires
        0 <= from <= bins.len(),
    ensures
        from <= half(bins, from) <= bins.len(),
    decreases bins.len() - from,
{
    if from < bins.len() {
        lemma_half(bins, from + 1);
    }
}

/// How many bins the boxes hold together.
pub open spec fn held(boxes: Seq<Seq<Bin>>) -> int
    decreases boxes.len(),
{
    if boxes.len() == 0 {
        0
    } else {
        held(boxes.drop_last()) + boxes.last().len()
    }
}

/// Whether some box holds the bin.
pub open spec fn kept(boxes: Seq<Seq<Bin>>, b: Bin) -> bool {
    exists|i: int| 0 <= i < boxes.len() && (#[trigger] boxes[i]).contains(b)
}

/// Boxes of bins that fit, `n` pixels at most in each.
pub open spec fn boxes_wf(boxes: Seq<Seq<Bin>>, n: int) -> bool {
    &&& forall|i: int, j: int|
        0 <= i < boxes.len() && 0 <= j < boxes[i].len() ==> fits(#[trigger] boxes[i][j])
    &&& forall|i: int| 0 <= i < boxes.len() ==> measure(#[trigger] boxes[i], 1) <= n
}

proof fn lemma_held_update(boxes: Seq<Seq<Bin>>, i: int, b: Seq<Bin>)
    requires
        0 <= i < boxes.len(),
    ensures
        held(boxes.update(i, b)) == held(boxes) - boxes[i].len() + b.len(),
    decreases boxes.len(),
{
    let u = boxes.update(i, b);
    if i == boxes.len() - 1 {
        assert(u.drop_last() =~= boxes.drop_last());
    } else {
        assert(u.drop_last() =~= boxes.drop_last().update(i, b));
        lemma_held_update(boxes.drop_last(), i, b);
    }
}

proof fn lemma_cut(boxes: Seq<Seq<Bin>>, i: int, n: int)
    requires
        boxes_wf(boxes, n),
        0 <= i < boxes.len(),
        boxes[i].len() > 1,
    ensures
        ({
            let s = sorted(boxes[i], widest(boxes[i]));
            let after = cut(boxes, i);
            &&& s.len() == boxes[i].len()
            &&& 0 < median(s) < s.len()
            &&& boxes_wf(after, n)
            &&& after.len() == boxes.len() + 1
            &&& held(after) == held(boxes)
            &&& forall|b: Bin| #[trigger] kept(boxes, b) ==> kept(after, b)
            &&& forall|b: Bin| #[trigger] kept(after, b) ==> kept(boxes, b)
            &&& (forall|k: int| 0 <= k < boxes.len() ==> (#[trigger] boxes[k]).len() > 0)
                ==> forall|k: int| 0 <= k < after.len() ==> (#[trigger] after[k]).len() > 0
        }),
{
    let bx = boxes[i];
    let s = sorted(bx, widest(bx));
    assert forall|j: int| 0 <= j < bx.len() implies fits(#[trigger] bx[j]) by {
        assert(fits(boxes[i][j]));
    }
    lemma_sorted(bx, widest(bx));
    lemma_half(s, 1);
    let m = median(s);
    let lo = s.take(m);
    let hi = s.skip(m);
    let part1 = boxes.update(i, lo);
    let after = cut(boxes, i);
    assert(after =~= part1.push(hi));
    assert(s =~= lo + hi);
    lemma_measure_concat(lo, hi, 1);
    assert(measure(s, 1) == measure(bx, 1));
    assert forall|j: int| 0 <= j < lo.len() implies fits(#[trigger] lo[j]) by {
        assert(fits(s[j]));
    }
    assert forall|j: int| 0 <= j < hi.len() implies fits(#[trigger] hi[j]) by {
        assert(fits(s[m + j]));
    }
    lemma_part_of_measure(lo, 0);
    lemma_part_of_measure(hi, 0);
    assert forall|k: int, j: int| 0 <= k < after.len() && 0 <= j < after[k].len() implies fits(
        #[trigger] after[k][j],
    ) by {
        if k == boxes.len() {
            assert(fits(hi[j]));
        } else if k == i {
            assert(fits(lo[j]));
        } else {
            assert(fits(boxes[k][j]));
        }
    }
    assert forall|k: int| 0 <= k < after.len() implies measure(#[trigger] after[k], 1) <= n by {
        assert(measure(boxes[i], 1) <= n);
        if k < boxes.len() && k != i {
            assert(measure(boxes[k], 1) <= n);
        }
    }
    lemma_held_update(boxes, i, lo);
    assert(after.drop_last() =~= part1);
    assert forall|b: Bin| #[trigger] kept(boxes, b) implies kept(after, b) by {
        let k = choose|k: int| 0 <= k < boxes.len() && (#[trigger] boxes[k]).contains(b);
        if k != i {
            assert(after[k].contains(b));
        } else {
            let j = choose|j: int| 0 <= j < bx.len() && bx[j] == b;
            assert(s.contains(bx[j]));
            let t = choose|t: int| 0 <= t < s.len() && s[t] == b;
            if t < m {
                assert(lo[t] == b);
                assert(after[i].contains(b));
            } else {
                assert(hi[t - m] == b);
                assert(after[boxes.len() as int].contains(b));
            }
        }
    }
    assert forall|b: Bin| #[trigger] kept(after, b) implies kept(boxes, b) by {
        let k = choose|k: int| 0 <= k < after.len() && (#[trigger] after[k]).contains(b);
        let j = choose|j: int| 0 <= j < after[k].len() && after[k][j] == b;
        if k == boxes.len() {
            assert(s[m + j] == b);
            assert(bx.contains(s[m + j]));
            assert(boxes[i].contains(b));
        } else if k == i {
            assert(s[j] == b);
            assert(bx.contains(s[j]));
            assert(boxes[i].contains(b));
        } else {
            assert(boxes[k].contains(b));
        }
    }
}

/// Cutting ends: with as many boxes as a palette may have, or with one bin in
/// each. No bin is lost on the way.
proof fn lemma_divided(boxes: Seq<Seq<Bin>>, n: int)
    requires
        boxes_wf(boxes, n),
        0 < boxes.len() <= MAX_COLOURS,
    ensures
        ({
            let end = divided(boxes);
            &&& boxes_wf(end, n)
            &&& boxes.len() <= end.len() <= MAX_COLOURS
            &&& held(end) == held(boxes)
            &&& forall|b: Bin| #[trigger] kept(boxes, b) ==> kept(end, b)
            &&& forall|b: Bin| #[trigger] kept(end, b) ==> kept(boxes, b)
            &&& end.len() == MAX_COLOURS || forall|i: int|
                0 <= i < end.len() ==> (#[trigger] end[i]).len() <= 1
            &&& (forall|k: int| 0 <= k < boxes.len() ==> (#[trigger] boxes[k]).len() > 0)
                ==> forall|k: int| 0 <= k < end.len() ==> (#[trigger] end[k]).len() > 0
        }),
    decreases MAX_COLOURS - boxes.len(),
{
    lemma_costliest(boxes);
    if boxes.len() < MAX_COLOURS {
        if let Some(i) = costliest(boxes) {
            lemma_cut(boxes, i, n);
            lemma_divided(cut(boxes, i), n);
        }
    }
}

proof fn lemma_held_least(boxes: Seq<Seq<Bin>>)
    requires
        forall|k: int| 0 <= k < boxes.len() ==> (#[trigger] boxes[k]).len() > 0,
    ensures
        held(boxes) >= boxes.len(),
        held(boxes) == boxes.len() ==> forall|k: int|
            0 <= k < boxes.len() ==> (#[trigger] boxes[k]).len() == 1,
    decreases boxes.len(),
{
    if boxes.len() > 0 {
        let before = boxes.drop_last();
        assert forall|k: int| 0 <= k < before.len() implies (#[trigger] before[k]).len() > 0 by {
            assert(before[k] == boxes[k]);
        }
        lemma_held_least(before);
        assert(boxes[boxes.len() - 1].len() > 0);
        assert forall|k: int| held(boxes) == boxes.len() && 0 <= k < boxes.len() implies (
        #[trigger] boxes[k]).len() == 1 by {
            if k < before.len() {
                assert(before[k] == boxes[k]);
            }
        }
    }
}

proof fn lemma_held_most(boxes: Seq<Seq<Bin>>)
    requires
        forall|k: int| 0 <= k < boxes.len() ==> (#[trigger] boxes[k]).len() <= 1,
    ensures
        held(boxes) <= boxes.len(),
    decreases boxes.len(),
{
    if boxes.len() > 0 {
        let before = boxes.drop_last();
        assert forall|k: int| 0 <= k < before.len() implies (#[trigger] before[k]).len() <= 1 by {
            assert(before[k] == boxes[k]);
        }
        lemma_held_most(before);
        assert(boxes[boxes.len() - 1].len() <= 1);
    }
}

/// The size of a palette: a colour for each occupied bin while there is room,
/// and never more than a palette may have. Every pixel has an entry.
pub proof fn a_palette_is_as_large_as_it_may_be(image: Image)
    ensures
        ({
            let bins = histogram(image, image.area()).len();
            boxes_of(image).len() == if bins > MAX_COLOURS {
                MAX_COLOURS as nat
            } else if bins == 0 {
                1
            } else {
                bins
            }
        }),
        forall|k: int|
            0 <= k < image.area() ==> ({
                let b = bin_of(#[trigger] image.nth(k));
                let e = entry_of(boxes_of(image), b);
                0 <= e < boxes_of(image).len() && slot(boxes_of(image)[e], b) is Some
            }),
{
    lemma_area(image);
    let n = image.area();
    let bins = histogram(image, n);
    let start = seq![bins];
    let end = boxes_of(image);
    lemma_start(image);
    lemma_divided(start, n);
    if bins.len() > 0 {
        lemma_held_least(end);
        if end.len() < MAX_COLOURS {
            lemma_held_most(end);
        }
    } else {
        lemma_costliest(start);
        assert(end =~= start);
    }
    assert forall|k: int| 0 <= k < n implies ({
        let b = bin_of(#[trigger] image.nth(k));
        let e = entry_of(end, b);
        0 <= e < end.len() && slot(end[e], b) is Some
    }) by {
        let b = bin_of(image.nth(k));
        lemma_slot(bins, b);
        let j = slot(bins, b)->Some_0;
        assert(start[0].contains(bins[j]));
        assert(kept(start, bins[j]));
        assert(kept(end, bins[j]));
        lemma_entry(end, bins[j]);
    }
}

proof fn lemma_area(image: Image)
    ensures
        image.area() >= 0,
        255 * image.area() <= u128::MAX,
{
    lemma_u32_product(image.width as int, image.height as int);
}

proof fn lemma_start(image: Image)
    ensures
        ({
            let bins = histogram(image, image.area());
            &&& boxes_wf(seq![bins], image.area())
            &&& held(seq![bins]) == bins.len()
            &&& forall|k: int|
                0 <= k < image.area() ==> slot(bins, bin_of(#[trigger] image.nth(k))) is Some
        }),
{
    lemma_area(image);
    let n = image.area();
    let bins = histogram(image, n);
    a_histogram_tallies_every_pixel(image, n);
    assert(seq![bins].drop_last() =~= Seq::<Seq<Bin>>::empty());
    reveal_with_fuel(held, 2);
}

proof fn lemma_entry(boxes: Seq<Seq<Bin>>, b: Bin)
    requires
        kept(boxes, b),
    ensures
        ({
            let e = entry_of(boxes, b.bucket as int);
            0 <= e < boxes.len() && slot(boxes[e], b.bucket as int) is Some
        }),
    decreases boxes.len(),
{
    let k = choose|k: int| 0 <= k < boxes.len() && (#[trigger] boxes[k]).contains(b);
    let j = choose|j: int| 0 <= j < boxes[k].len() && boxes[k][j] == b;
    lemma_slot(boxes[k], b.bucket as int);
    assert(boxes[k][j].bucket == b.bucket);
    if slot(boxes.last(), b.bucket as int) is None {
        assert(k < boxes.len() - 1);
        assert(boxes.drop_last()[k].contains(b));
        lemma_entry(boxes.drop_last(), b);
    }
}

proof fn lemma_one_colour(image: Image, n: int, b: int, p: (u8, u8, u8))
    requires
        forall|k: int| 0 <= k < n && bin_of(#[trigger] image.nth(k)) == b ==> image.nth(k) == p,
    ensures
        ({
            let t = tally(image, n, b);
            t.1 == t.0 * p.0 && t.2 == t.0 * p.1 && t.3 == t.0 * p.2
        }),
    decreases n,
{
    if n > 0 {
        lemma_one_colour(image, n - 1, b, p);
        let t = tally(image, n - 1, b);
        assert((t.0 + 1) * p.0 == t.0 * p.0 + p.0) by (nonlinear_arith);
        assert((t.0 + 1) * p.1 == t.0 * p.1 + p.1) by (nonlinear_arith);
        assert((t.0 + 1) * p.2 == t.0 * p.2 + p.2) by (nonlinear_arith);
        assert(bin_of(image.nth(n - 1)) == b ==> image.nth(n - 1) == p);
    } else {
        assert(0 * p.0 == 0 && 0 * p.1 == 0 && 0 * p.2 == 0);
    }
}

/// A picture with few colours is given each of them exactly, where no two of
/// them share a bin.
pub proof fn few_colours_are_exact(image: Image, k: int)
    requires
        histogram(image, image.area()).len() <= MAX_COLOURS,
        0 <= k < image.area(),
        forall|j: int|
            0 <= j < image.area() && bin_of(#[trigger] image.nth(j)) == bin_of(image.nth(k))
                ==> image.nth(j) == image.nth(k),
    ensures
        ({
            let boxes = boxes_of(image);
            average(boxes[entry_of(boxes, bin_of(image.nth(k)))]) == image.nth(k)
        }),
{
    lemma_area(image);
    a_palette_is_as_large_as_it_may_be(image);
    let n = image.area();
    let p = image.nth(k);
    let b = bin_of(p);
    let bins = histogram(image, n);
    let start = seq![bins];
    let end = boxes_of(image);
    let e = entry_of(end, b);
    lemma_start(image);
    a_histogram_tallies_every_pixel(image, n);
    lemma_divided(start, n);
    assert(slot(bins, b) is Some);
    lemma_slot(bins, b);
    lemma_held_least(end);
    let bx = end[e];
    assert(bx.len() == 1);
    lemma_slot(bx, b);
    let bin = bx[0];
    assert(end[e].contains(bin));
    assert(kept(end, bin));
    assert(kept(start, bin));
    let s = choose|s: int| 0 <= s < start.len() && (#[trigger] start[s]).contains(bin);
    assert(bins.contains(bin));
    let i = choose|i: int| 0 <= i < bins.len() && bins[i] == bin;
    assert(fits(bins[i]));
    lemma_one_colour(image, n, b, p);
    assert(bx =~= seq![bin]);
    assert(bx.drop_last() =~= Seq::<Bin>::empty());
    reveal_with_fuel(measure, 2);
    let c = bin.count as int;
    assert(c * p.0 / c == p.0 && c * p.1 / c == p.1 && c * p.2 / c == p.2) by (nonlinear_arith)
        requires
            c >= 1,
    ;
}

/// The palette of a picture, and the entry of each bin.
pub fn quantise(image: &Image) -> (r: (Vec<[u8; 3]>, Vec<u8>))
    ensures
        ({
            let boxes = boxes_of(*image);
            &&& r.0@.len() == boxes.len()
            &&& forall|i: int|
                0 <= i < boxes.len() ==> triple(#[trigger] r.0@[i]) == average(boxes[i])
            &&& r.1@.len() == BINS
            &&& forall|b: int|
                0 <= b < BINS ==> (#[trigger] r.1@[b]) as int == entry_of(boxes, b)
        }),
        0 < r.0@.len() <= MAX_COLOURS,
        forall|b: int| 0 <= b < BINS ==> (#[trigger] r.1@[b]) < r.0@.len(),
{
    let ghost n = image.area();
    proof {
        lemma_area(*image);
        lemma_start(*image);
    }
    let bins = count_bins(image);
    let mut boxes: Vec<Vec<Bin>> = Vec::new();
    boxes.push(bins);
    proof {
        assert(contents(boxes@) =~= seq![histogram(*image, n)]);
        lemma_divided(seq![histogram(*image, n)], n);
    }
    divide(&mut boxes, Ghost(n));
    let ghost all = boxes_of(*image);
    assert(contents(boxes@) == all);
    let mut palette: Vec<[u8; 3]> = Vec::new();
    let mut index_of: Vec<u8> = Vec::new();
    let mut i: usize = 0;
    while i < BINS
        invariant
            i <= BINS,
            index_of@.len() == i,
            forall|b: int| 0 <= b < i ==> index_of@[b] == 0,
        decreases BINS - i,
    {
        index_of.push(0);
        i = i + 1;
    }
    let m: usize = boxes.len();
    let mut i: usize = 0;
    while i < m
        invariant
            i <= m == boxes@.len() == all.len() <= MAX_COLOURS,
            contents(boxes@) == all,
            boxes_wf(all, n),
            255 * n <= u128::MAX,
            palette@.len() == i,
            forall|j: int| 0 <= j < i ==> triple(#[trigger] palette@[j]) == average(all[j]),
            index_of@.len() == BINS,
            forall|b: int|
                0 <= b < BINS ==> (#[trigger] index_of@[b]) as int == entry_of(
                    all.take(i as int),
                    b,
                ),
        decreases m - i,
    {
        assert(all[i as int] == boxes@[i as int]@);
        assert forall|j: int| 0 <= j < boxes@[i as int]@.len() implies fits(
            #[trigger] boxes@[i as int]@[j],
        ) by {
            assert(fits(all[i as int][j]));
        }
        assert(measure(all[i as int], 1) <= n);
        let px = mean(&boxes[i], Ghost(n));
        palette.push(px);
        assign(&mut index_of, &boxes[i], i as u8);
        proof {
            assert(all.take(i as int + 1).drop_last() =~= all.take(i as int));
            assert(all.take(i as int + 1).last() == all[i as int]);
        }
        i = i + 1;
    }
    proof {
        assert(all.take(i as int) =~= all);
        assert forall|b: int| 0 <= b < BINS implies (#[trigger] index_of@[b]) < palette@.len() by {
            lemma_entry_range(all, b);
        }
    }
    (palette, index_of)
}

proof fn lemma_entry_range(boxes: Seq<Seq<Bin>>, b: int)
    requires
        boxes.len() > 0,
    ensures
        0 <= entry_of(boxes, b) < boxes.len(),
    decreases boxes.len(),
{
    if boxes.len() > 1 {
        lemma_entry_range(boxes.drop_last(), b);
    } else {
        assert(boxes.drop_last() =~= Seq::<Seq<Bin>>::empty());
        reveal_with_fuel(entry_of, 2);
    }
}

/// The contents of a list of boxes.
pub open spec fn contents(boxes: Seq<Vec<Bin>>) -> Seq<Seq<Bin>> {
    Seq::new(boxes.len(), |i: int| boxes[i]@)
}

fn count_bins(image: &Image) -> (bins: Vec<Bin>)
    ensures
        bins@ == histogram(*image, image.area()),
{
    let mut bins: Vec<Bin> = Vec::new();
    let mut at: Vec<Option<usize>> = Vec::new();
    let mut i: usize = 0;
    while i < BINS
        invariant
            i <= BINS,
            at@.len() == i,
            forall|b: int| 0 <= b < i ==> at@[b] is None,
        decreases BINS - i,
    {
        at.push(None);
        i = i + 1;
    }
    let w: u32 = image.width;
    let h: u32 = image.height;
    let mut y: u32 = 0;
    while y < h
        invariant
            y <= h == image.height,
            w == image.width,
            bins@ == histogram(*image, y * w),
            at@.len() == BINS,
            forall|b: int|
                0 <= b < BINS ==> match #[trigger] at@[b] {
                    Some(i) => slot(bins@, b) == Some(i as int),
                    None => slot(bins@, b) is None,
                },
        decreases h - y,
    {
        let mut x: u32 = 0;
        assert((y + 1) * w == y * w + w) by (nonlinear_arith);
        assert((y + 1) * w <= h * w) by (nonlinear_arith)
            requires
                y + 1 <= h,
                0 <= w,
        ;
        assert(0 <= y * w) by (nonlinear_arith)
            requires
                0 <= y,
                0 <= w,
        ;
        assert(h * w == w * h) by (nonlinear_arith);
        while x < w
            invariant
                x <= w == image.width,
                y < h == image.height,
                    0 <= y * w,
                y * w + w <= image.area(),
                bins@ == histogram(*image, y * w + x),
                at@.len() == BINS,
                forall|b: int|
                    0 <= b < BINS ==> match #[trigger] at@[b] {
                        Some(i) => slot(bins@, b) == Some(i as int),
                        None => slot(bins@, b) is None,
                    },
            decreases w - x,
        {
            let px = image.pixel(x, y);
            let b = bucket(px);
            let ghost k = y * w + x;
            let ghost p = triple(px);
            let ghost before = bins@;
            assert(p == image.nth(k));
            proof {
                lemma_area(*image);
                a_histogram_tallies_every_pixel(*image, k);
                lemma_slot(before, b as int);
            }
            match at[b] {
                Some(i) => {
                    let bin = bins[i];
                    proof {
                        lemma_part_of_measure(before, i as int);
                        assert(fits(before[i as int]));
                    }
                    bins.set(
                        i,
                        Bin {
                            bucket: bin.bucket,
                            count: bin.count + 1,
                            red: bin.red + px[0] as u128,
                            green: bin.green + px[1] as u128,
                            blue: bin.blue + px[2] as u128,
                        },
                    );
                    assert(bins@ =~= before.update(i as int, grown(before[i as int], p)));
                    proof {
                        assert forall|c: int| 0 <= c < BINS implies slot(bins@, c) == slot(
                            before,
                            c,
                        ) by {
                            lemma_slot_update(before, i as int, grown(before[i as int], p), c);
                        }
                    }
                },
                None => {
                    let i: usize = bins.len();
                    at.set(b, Some(i));
                    bins.push(
                        Bin {
                            bucket: b as u32,
                            count: 1,
                            red: px[0] as u128,
                            green: px[1] as u128,
                            blue: px[2] as u128,
                        },
                    );
                    assert(bins@ =~= before.push(fresh(p)));
                    proof {
                        assert(bins@.drop_last() =~= before);
                        assert forall|c: int| 0 <= c < BINS implies slot(bins@, c) == (if c == b {
                            Some(before.len() as int)
                        } else {
                            slot(before, c)
                        }) by {}
                    }
                },
            }
            x = x + 1;
        }
        y = y + 1;
    }
    assert(h * w == w * h) by (nonlinear_arith);
    bins
}

proof fn lemma_slot_update(bins: Seq<Bin>, i: int, b: Bin, c: int)
    requires
        0 <= i < bins.len(),
        bins[i].bucket == b.bucket,
    ensures
        slot(bins.update(i, b), c) == slot(bins, c),
    decreases bins.len(),
{
    let u = bins.update(i, b);
    if i == bins.len() - 1 {
        assert(u.drop_last() =~= bins.drop_last());
    } else {
        assert(u.drop_last() =~= bins.drop_last().update(i, b));
        lemma_slot_update(bins.drop_last(), i, b, c);
    }
}

fn coordinate(b: &Bin, axis: usize) -> (c: u32)
    ensures
        c == channel(*b, axis as int),
{
    if axis == 0 {
        b.bucket / 4096
    } else if axis == 1 {
        b.bucket / 64 % 64
    } else {
        b.bucket % 64
    }
}

fn extent(bins: &Vec<Bin>, axis: usize) -> (r: (u32, u32))
    requires
        bins@.len() > 0,
        forall|j: int| 0 <= j < bins@.len() ==> fits(#[trigger] bins@[j]),
    ensures
        r.0 == lowest(bins@, axis as int),
        r.1 == highest(bins@, axis as int),
        r.0 <= r.1 < 64,
{
    let n: usize = bins.len();
    let mut lo: u32 = 63;
    let mut hi: u32 = 0;
    let mut i: usize = 0;
    while i < n
        invariant
            i <= n == bins@.len(),
            forall|j: int| 0 <= j < bins@.len() ==> fits(#[trigger] bins@[j]),
            lo == lowest(bins@.take(i as int), axis as int),
            hi == highest(bins@.take(i as int), axis as int),
            hi < 64,
            i > 0 ==> lo <= hi,
        decreases n - i,
    {
        proof {
            assert(bins@.take(i as int + 1).drop_last() =~= bins@.take(i as int));
            assert(fits(bins@[i as int]));
        }
        let c = coordinate(&bins[i], axis);
        if c < lo {
            lo = c;
        }
        if c > hi {
            hi = c;
        }
        i = i + 1;
    }
    assert(bins@.take(i as int) =~= bins@);
    (lo, hi)
}

fn widest_axis(bins: &Vec<Bin>) -> (axis: usize)
    requires
        bins@.len() > 0,
        forall|j: int| 0 <= j < bins@.len() ==> fits(#[trigger] bins@[j]),
    ensures
        axis == widest(bins@),
        axis < 3,
{
    let r = extent(bins, 0);
    let g = extent(bins, 1);
    let b = extent(bins, 2);
    let red = r.1 - r.0;
    let green = g.1 - g.0;
    let blue = b.1 - b.0;
    if blue >= green && blue >= red {
        2
    } else if green >= red {
        1
    } else {
        0
    }
}

fn weight(bins: &Vec<Bin>, Ghost(n): Ghost<int>) -> (w: u128)
    requires
        forall|j: int| 0 <= j < bins@.len() ==> fits(#[trigger] bins@[j]),
        measure(bins@, 1) <= n,
        255 * n <= u128::MAX,
    ensures
        w == measure(bins@, 1),
{
    let m: usize = bins.len();
    let mut total: u128 = 0;
    let mut i: usize = 0;
    while i < m
        invariant
            i <= m == bins@.len(),
            forall|j: int| 0 <= j < bins@.len() ==> fits(#[trigger] bins@[j]),
            measure(bins@, 1) <= n,
            255 * n <= u128::MAX,
            total == measure(bins@.take(i as int), 1),
        decreases m - i,
    {
        proof {
            assert(bins@.take(i as int + 1).drop_last() =~= bins@.take(i as int));
            lemma_take_measure(bins@, i as int + 1, 1);
        }
        total = total + bins[i].count;
        i = i + 1;
    }
    assert(bins@.take(i as int) =~= bins@);
    total
}

proof fn lemma_take_measure(bins: Seq<Bin>, i: int, which: int)
    requires
        0 <= i <= bins.len(),
        forall|j: int| 0 <= j < bins.len() ==> fits(#[trigger] bins[j]),
        1 <= which <= 4,
    ensures
        0 <= measure(bins.take(i), which) <= measure(bins, which),
{
    let a = bins.take(i);
    let b = bins.skip(i);
    assert(bins =~= a + b);
    lemma_measure_concat(a, b, which);
    assert forall|j: int| 0 <= j < a.len() implies fits(#[trigger] a[j]) by {
        assert(fits(bins[j]));
    }
    assert forall|j: int| 0 <= j < b.len() implies fits(#[trigger] b[j]) by {
        assert(fits(bins[i + j]));
    }
    if a.len() > 0 {
        lemma_part_of_measure(a, 0);
    }
    if b.len() > 0 {
        lemma_part_of_measure(b, 0);
    }
}

fn cost(bins: &Vec<Bin>, Ghost(n): Ghost<int>) -> (c: u128)
    requires
        bins@.len() > 0,
        forall|j: int| 0 <= j < bins@.len() ==> fits(#[trigger] bins@[j]),
        measure(bins@, 1) <= n,
        255 * n <= u128::MAX,
    ensures
        c == price(bins@),
{
    let pixels = weight(bins, Ghost(n));
    let axis = widest_axis(bins);
    let e = extent(bins, axis);
    let s: u128 = (e.1 - e.0) as u128;
    assert(0 <= pixels * s <= pixels * 63) by (nonlinear_arith)
        requires
            0 <= s <= 63,
            0 <= pixels,
    ;
    pixels * s
}

fn sort_along(bins: &Vec<Bin>, axis: usize) -> (out: Vec<Bin>)
    ensures
        out@ == sorted(bins@, axis as int),
{
    let mut out: Vec<Bin> = Vec::new();
    let n: usize = bins.len();
    let mut key: u32 = 0;
    while key < 64
        invariant
            key <= 64,
            n == bins@.len(),
            out@ == levels(bins@, axis as int, key as int),
        decreases 64 - key,
    {
        let ghost before = out@;
        let mut i: usize = 0;
        assert(out@ =~= before + level(bins@.take(0), axis as int, key as int));
        while i < n
            invariant
                i <= n == bins@.len(),
                out@ == before + level(bins@.take(i as int), axis as int, key as int),
            decreases n - i,
        {
            proof {
                assert(bins@.take(i as int + 1).drop_last() =~= bins@.take(i as int));
            }
            let ghost so_far = level(bins@.take(i as int), axis as int, key as int);
            if coordinate(&bins[i], axis) == key {
                out.push(bins[i]);
                assert(out@ =~= before + so_far.push(bins@[i as int]));
            }
            i = i + 1;
        }
        assert(bins@.take(i as int) =~= bins@);
        key = key + 1;
    }
    out
}

fn middle(bins: &Vec<Bin>, Ghost(n): Ghost<int>) -> (mid: usize)
    requires
        bins@.len() > 1,
        forall|j: int| 0 <= j < bins@.len() ==> fits(#[trigger] bins@[j]),
        measure(bins@, 1) <= n,
        255 * n <= u128::MAX,
    ensures
        mid == median(bins@),
        0 < mid < bins@.len(),
{
    let m: usize = bins.len();
    let total = weight(bins, Ghost(n));
    let mut acc: u128 = bins[0].count;
    let mut i: usize = 1;
    proof {
        assert(bins@.take(1).drop_last() =~= Seq::<Bin>::empty());
        reveal_with_fuel(measure, 2);
        lemma_take_measure(bins@, 1, 1);
    }
    while i < m && acc * 2 < total
        invariant
            1 <= i <= m == bins@.len(),
            forall|j: int| 0 <= j < bins@.len() ==> fits(#[trigger] bins@[j]),
            measure(bins@, 1) <= n,
            255 * n <= u128::MAX,
            total == measure(bins@, 1),
            acc == measure(bins@.take(i as int), 1),
            acc <= total,
            half(bins@, 1) == half(bins@, i as int),
        decreases m - i,
    {
        proof {
            assert(bins@.take(i as int + 1).drop_last() =~= bins@.take(i as int));
            lemma_take_measure(bins@, i as int + 1, 1);
        }
        acc = acc + bins[i].count;
        i = i + 1;
    }
    if i > m - 1 {
        m - 1
    } else {
        i
    }
}

fn divide(boxes: &mut Vec<Vec<Bin>>, Ghost(n): Ghost<int>)
    requires
        boxes_wf(contents(old(boxes)@), n),
        0 < old(boxes)@.len() <= MAX_COLOURS,
        255 * n <= u128::MAX,
    ensures
        contents(final(boxes)@) == divided(contents(old(boxes)@)),
{
    let ghost goal = divided(contents(boxes@));
    while boxes.len() < MAX_COLOURS
        invariant
            boxes_wf(contents(boxes@), n),
            0 < boxes@.len() <= MAX_COLOURS,
            255 * n <= u128::MAX,
            divided(contents(boxes@)) == goal,
            goal == divided(contents(old(boxes)@)),
        ensures
            contents(boxes@) == goal,
        decreases MAX_COLOURS - boxes@.len(),
    {
        let ghost before = contents(boxes@);
        let pick = match choose_box(boxes, Ghost(n)) {
            Some(i) => i,
            None => {
                break;
            },
        };
        proof {
            lemma_costliest(before);
            lemma_cut(before, pick as int, n);
            assert(before[pick as int] == boxes@[pick as int]@);
            assert forall|j: int| 0 <= j < boxes@[pick as int]@.len() implies fits(
                #[trigger] boxes@[pick as int]@[j],
            ) by {
                assert(fits(before[pick as int][j]));
            }
            lemma_sorted(before[pick as int], widest(before[pick as int]));
        }
        let axis = widest_axis(&boxes[pick]);
        let mut low = sort_along(&boxes[pick], axis);
        let ghost s = low@;
        assert(measure(before[pick as int], 1) <= n);
        assert(measure(s, 1) == measure(before[pick as int], 1));
        let mid = middle(&low, Ghost(n));
        let high = low.split_off(mid);
        assert(low@ =~= s.take(median(s)));
        assert(high@ =~= s.skip(median(s)));
        boxes.set(pick, low);
        boxes.push(high);
        assert(contents(boxes@) =~= cut(before, pick as int));
    }
}

fn choose_box(boxes: &Vec<Vec<Bin>>, Ghost(n): Ghost<int>) -> (pick: Option<usize>)
    requires
        boxes_wf(contents(boxes@), n),
        255 * n <= u128::MAX,
    ensures
        match pick {
            Some(i) => costliest(contents(boxes@)) == Some(i as int),
            None => costliest(contents(boxes@)) is None,
        },
{
    let ghost all = contents(boxes@);
    let m: usize = boxes.len();
    let mut pick: Option<usize> = None;
    let mut most: u128 = 0;
    let mut i: usize = 0;
    assert(all.take(0) =~= Seq::<Seq<Bin>>::empty());
    while i < m
        invariant
            i <= m == boxes@.len(),
            all == contents(boxes@),
            boxes_wf(all, n),
            255 * n <= u128::MAX,
            match pick {
                Some(k) => costliest(all.take(i as int)) == Some(k as int) && k < i && most
                    == price(all[k as int]),
                None => costliest(all.take(i as int)) is None,
            },
        decreases m - i,
    {
        proof {
            let next = all.take(i as int + 1);
            assert(next.drop_last() =~= all.take(i as int));
            assert(next.last() == all[i as int]);
            assert(all[i as int] == boxes@[i as int]@);
            if let Some(k) = pick {
                assert(next[k as int] == all[k as int]);
            }
            assert forall|j: int| 0 <= j < boxes@[i as int]@.len() implies fits(
                #[trigger] boxes@[i as int]@[j],
            ) by {
                assert(fits(all[i as int][j]));
            }
            assert(measure(all[i as int], 1) <= n);
        }
        if boxes[i].len() > 1 {
            let c = cost(&boxes[i], Ghost(n));
            if pick.is_none() || c >= most {
                pick = Some(i);
                most = c;
            }
        }
        i = i + 1;
    }
    assert(all.take(i as int) =~= all);
    pick
}

fn mean(bins: &Vec<Bin>, Ghost(n): Ghost<int>) -> (px: [u8; 3])
    requires
        forall|j: int| 0 <= j < bins@.len() ==> fits(#[trigger] bins@[j]),
        measure(bins@, 1) <= n,
        255 * n <= u128::MAX,
    ensures
        triple(px) == average(bins@),
{
    let m: usize = bins.len();
    let mut count: u128 = 0;
    let mut red: u128 = 0;
    let mut green: u128 = 0;
    let mut blue: u128 = 0;
    let mut i: usize = 0;
    while i < m
        invariant
            i <= m == bins@.len(),
            forall|j: int| 0 <= j < bins@.len() ==> fits(#[trigger] bins@[j]),
            measure(bins@, 1) <= n,
            255 * n <= u128::MAX,
            count == measure(bins@.take(i as int), 1),
            red == measure(bins@.take(i as int), 2),
            green == measure(bins@.take(i as int), 3),
            blue == measure(bins@.take(i as int), 4),
        decreases m - i,
    {
        proof {
            assert(bins@.take(i as int + 1).drop_last() =~= bins@.take(i as int));
            lemma_take_measure(bins@, i as int + 1, 1);
            lemma_take_measure(bins@, i as int + 1, 2);
            lemma_take_measure(bins@, i as int + 1, 3);
            lemma_take_measure(bins@, i as int + 1, 4);
            lemma_part_of_measure(bins@, 0);
        }
        count = count + bins[i].count;
        red = red + bins[i].red;
        green = green + bins[i].green;
        blue = blue + bins[i].blue;
        i = i + 1;
    }
    assert(bins@.take(i as int) =~= bins@);
    if count == 0 {
        return [0, 0, 0];
    }
    proof {
        if bins@.len() > 0 {
            lemma_part_of_measure(bins@, 0);
        }
        lemma_byte(red as int, count as int);
        lemma_byte(green as int, count as int);
        lemma_byte(blue as int, count as int);
    }
    [(red / count) as u8, (green / count) as u8, (blue / count) as u8]
}

proof fn lemma_byte(total: int, count: int)
    requires
        count > 0,
        0 <= total <= 255 * count,
    ensures
        0 <= total / count <= 255,
{
    assert(0 <= total / count <= 255) by (nonlinear_arith)
        requires
            count > 0,
            0 <= total <= 255 * count,
    ;
}

fn assign(index_of: &mut Vec<u8>, bins: &Vec<Bin>, entry: u8)
    requires
        old(index_of)@.len() == BINS,
        forall|j: int| 0 <= j < bins@.len() ==> fits(#[trigger] bins@[j]),
    ensures
        final(index_of)@.len() == BINS,
        forall|b: int|
            0 <= b < BINS ==> #[trigger] final(index_of)@[b] == if slot(bins@, b) is Some {
                entry
            } else {
                old(index_of)@[b]
            },
{
    let ghost before = index_of@;
    let m: usize = bins.len();
    let mut i: usize = 0;
    while i < m
        invariant
            i <= m == bins@.len(),
            index_of@.len() == BINS,
            before == old(index_of)@,
            forall|j: int| 0 <= j < bins@.len() ==> fits(#[trigger] bins@[j]),
            forall|b: int|
                0 <= b < BINS ==> #[trigger] index_of@[b] == if slot(
                    bins@.take(i as int),
                    b,
                ) is Some {
                    entry
                } else {
                    before[b]
                },
        decreases m - i,
    {
        proof {
            assert(bins@.take(i as int + 1).drop_last() =~= bins@.take(i as int));
            assert(fits(bins@[i as int]));
        }
        index_of.set(bins[i].bucket as usize, entry);
        i = i + 1;
    }
    assert(bins@.take(i as int) =~= bins@);
}

/// Two colours share a bin exactly where they agree in the upper six bits of
/// each component.
pub proof fn a_bin_holds_colours_that_agree(p: (u8, u8, u8), q: (u8, u8, u8))
    ensures
        bin_of(p) == bin_of(q) <==> p.0 / 4 == q.0 / 4 && p.1 / 4 == q.1 / 4 && p.2 / 4 == q.2 / 4,
{
}

/// The coordinates of the bin of a colour are the upper six bits of its
/// components.
pub proof fn a_bin_has_the_coordinates_of_its_colours(p: (u8, u8, u8), b: Bin)
    requires
        b.bucket == bin_of(p),
    ensures
        channel(b, 0) == p.0 / 4,
        channel(b, 1) == p.1 / 4,
        channel(b, 2) == p.2 / 4,
{
    let r = p.0 as int / 4;
    let g = p.1 as int / 4;
    let c = p.2 as int / 4;
    assert(0 <= r < 64 && 0 <= g < 64 && 0 <= c < 64);
    assert(bin_of(p) == r * 4096 + g * 64 + c);
    assert(bin_of(p) / 4096 == r);
    assert(bin_of(p) / 64 == r * 64 + g);
}

/// The spread of some bins reaches from the lowest coordinate to the highest:
/// no two are further apart, and two are that far.
pub proof fn a_spread_reaches_from_end_to_end(bins: Seq<Bin>, axis: int) -> (r: (int, int))
    requires
        bins.len() > 0,
        forall|j: int| 0 <= j < bins.len() ==> fits(#[trigger] bins[j]),
    ensures
        0 <= r.0 < bins.len(),
        0 <= r.1 < bins.len(),
        spread(bins, axis) == channel(bins[r.1], axis) - channel(bins[r.0], axis),
        forall|j: int|
            0 <= j < bins.len() ==> channel(bins[r.0], axis) <= channel(#[trigger] bins[j], axis)
                <= channel(bins[r.1], axis),
{
    let a = lemma_lowest(bins, axis);
    let b = lemma_highest(bins, axis);
    (a, b)
}

proof fn lemma_channel(b: Bin, axis: int)
    requires
        fits(b),
    ensures
        0 <= channel(b, axis) <= 63,
{
    let v = b.bucket as int;
    assert(0 <= v < 262144);
}

proof fn lemma_lowest(bins: Seq<Bin>, axis: int) -> (k: int)
    requires
        bins.len() > 0,
        forall|j: int| 0 <= j < bins.len() ==> fits(#[trigger] bins[j]),
    ensures
        0 <= k < bins.len(),
        lowest(bins, axis) == channel(bins[k], axis),
        forall|j: int|
            0 <= j < bins.len() ==> lowest(bins, axis) <= channel(#[trigger] bins[j], axis),
    decreases bins.len(),
{
    let before = bins.drop_last();
    let last = bins.len() - 1;
    lemma_channel(bins[last], axis);
    if before.len() == 0 {
        assert(lowest(before, axis) == 63);
        last
    } else {
        assert forall|j: int| 0 <= j < before.len() implies fits(#[trigger] before[j]) by {
            assert(fits(bins[j]));
        }
        let k = lemma_lowest(before, axis);
        assert forall|j: int| 0 <= j < bins.len() implies lowest(bins, axis) <= channel(
            #[trigger] bins[j],
            axis,
        ) by {
            if j < last {
                assert(bins[j] == before[j]);
            }
        }
        if channel(bins[last], axis) < lowest(before, axis) {
            last
        } else {
            k
        }
    }
}

proof fn lemma_highest(bins: Seq<Bin>, axis: int) -> (k: int)
    requires
        bins.len() > 0,
        forall|j: int| 0 <= j < bins.len() ==> fits(#[trigger] bins[j]),
    ensures
        0 <= k < bins.len(),
        highest(bins, axis) == channel(bins[k], axis),
        forall|j: int|
            0 <= j < bins.len() ==> highest(bins, axis) >= channel(#[trigger] bins[j], axis),
    decreases bins.len(),
{
    let before = bins.drop_last();
    let last = bins.len() - 1;
    lemma_channel(bins[last], axis);
    if before.len() == 0 {
        assert(highest(before, axis) == 0);
        last
    } else {
        assert forall|j: int| 0 <= j < before.len() implies fits(#[trigger] before[j]) by {
            assert(fits(bins[j]));
        }
        let k = lemma_highest(before, axis);
        assert forall|j: int| 0 <= j < bins.len() implies highest(bins, axis) >= channel(
            #[trigger] bins[j],
            axis,
        ) by {
            if j < last {
                assert(bins[j] == before[j]);
            }
        }
        if channel(bins[last], axis) > highest(before, axis) {
            last
        } else {
            k
        }
    }
}

/// Bins are cut along the axis that they reach furthest on.
pub proof fn the_widest_axis_is_the_widest(bins: Seq<Bin>, axis: int)
    requires
        0 <= axis < 3,
    ensures
        0 <= widest(bins) < 3,
        spread(bins, axis) <= spread(bins, widest(bins)),
        spread(bins, axis) == spread(bins, widest(bins)) ==> axis <= widest(bins),
{
}

/// The box that is cut is the one that costs the most of those with two bins or
/// more; of equals, the last.
pub proof fn the_costliest_box_is_cut(boxes: Seq<Seq<Bin>>, j: int)
    requires
        0 <= j < boxes.len(),
        boxes[j].len() > 1,
    ensures
        costliest(boxes) is Some,
        price(boxes[j]) <= price(boxes[costliest(boxes)->Some_0]),
        price(boxes[j]) == price(boxes[costliest(boxes)->Some_0]) ==> j
            <= costliest(boxes)->Some_0,
    decreases boxes.len(),
{
    let before = boxes.drop_last();
    lemma_costliest(boxes);
    lemma_costliest(before);
    if j < boxes.len() - 1 {
        the_costliest_box_is_cut(before, j);
        assert(before[j] == boxes[j]);
        let i = costliest(before)->Some_0;
        assert(before[i] == boxes[i]);
    } else if costliest(before) is Some {
        let i = costliest(before)->Some_0;
        assert(before[i] == boxes[i]);
    }
}

proof fn lemma_level_keys(bins: Seq<Bin>, axis: int, key: int)
    ensures
        forall|i: int|
            0 <= i < level(bins, axis, key).len() ==> channel(
                #[trigger] level(bins, axis, key)[i],
                axis,
            ) == key,
    decreases bins.len(),
{
    if bins.len() > 0 {
        let before = level(bins.drop_last(), axis, key);
        lemma_level_keys(bins.drop_last(), axis, key);
        assert forall|i: int| 0 <= i < level(bins, axis, key).len() implies channel(
            #[trigger] level(bins, axis, key)[i],
            axis,
        ) == key by {
            if i < before.len() {
                assert(level(bins, axis, key)[i] == before[i]);
            }
        }
    }
}

/// Bins that are sorted along an axis are in the order of its coordinate.
pub proof fn sorted_bins_are_in_order(bins: Seq<Bin>, axis: int, keys: int)
    ensures
        forall|i: int, j: int|
            0 <= i <= j < levels(bins, axis, keys).len() ==> channel(
                #[trigger] levels(bins, axis, keys)[i],
                axis,
            ) <= channel(#[trigger] levels(bins, axis, keys)[j], axis),
        forall|i: int|
            0 <= i < levels(bins, axis, keys).len() ==> channel(
                #[trigger] levels(bins, axis, keys)[i],
                axis,
            ) < keys,
    decreases keys,
{
    if keys > 0 {
        sorted_bins_are_in_order(bins, axis, keys - 1);
        lemma_level_keys(bins, axis, keys - 1);
        let low = levels(bins, axis, keys - 1);
        let high = level(bins, axis, keys - 1);
        let all = levels(bins, axis, keys);
        assert(all == low + high);
        assert forall|i: int| 0 <= i < all.len() implies channel(#[trigger] all[i], axis) < keys by {
            if i < low.len() {
                assert(all[i] == low[i]);
            } else {
                assert(all[i] == high[i - low.len()]);
            }
        }
        assert forall|i: int, j: int| 0 <= i <= j < all.len() implies channel(
            #[trigger] all[i],
            axis,
        ) <= channel(#[trigger] all[j], axis) by {
            if j < low.len() {
                assert(all[i] == low[i] && all[j] == low[j]);
            } else {
                assert(all[j] == high[j - low.len()]);
                if i < low.len() {
                    assert(all[i] == low[i]);
                } else {
                    assert(all[i] == high[i - low.len()]);
                }
            }
        }
    }
}

proof fn lemma_half_is_least(bins: Seq<Bin>, from: int)
    requires
        0 <= from <= bins.len(),
    ensures
        from <= half(bins, from) <= bins.len(),
        half(bins, from) < bins.len() ==> 2 * measure(bins.take(half(bins, from)), 1) >= measure(
            bins,
            1,
        ),
        forall|m: int|
            from <= m < half(bins, from) ==> 2 * measure(#[trigger] bins.take(m), 1) < measure(
                bins,
                1,
            ),
    decreases bins.len() - from,
{
    if !(from >= bins.len() || 2 * measure(bins.take(from), 1) >= measure(bins, 1)) {
        lemma_half_is_least(bins, from + 1);
    }
}

/// A cut leaves something on either side, and is made as soon as the lower side
/// has half of the pixels.
pub proof fn a_cut_is_made_at_the_median(bins: Seq<Bin>)
    requires
        bins.len() > 1,
    ensures
        0 < median(bins) < bins.len(),
        median(bins) < bins.len() - 1 ==> 2 * measure(bins.take(median(bins)), 1) >= measure(
            bins,
            1,
        ),
        forall|m: int|
            1 <= m < median(bins) ==> 2 * measure(#[trigger] bins.take(m), 1) < measure(bins, 1),
{
    lemma_half_is_least(bins, 1);
}

/// A colour of a palette is the average of its pixels, rounded down.
pub proof fn a_colour_is_the_average_of_its_pixels(bins: Seq<Bin>)
    requires
        forall|j: int| 0 <= j < bins.len() ==> fits(#[trigger] bins[j]),
        measure(bins, 1) > 0,
    ensures
        ({
            let n = measure(bins, 1);
            let c = average(bins);
            &&& n * c.0 <= measure(bins, 2) < n * (c.0 + 1)
            &&& n * c.1 <= measure(bins, 3) < n * (c.1 + 1)
            &&& n * c.2 <= measure(bins, 4) < n * (c.2 + 1)
        }),
{
    let n = measure(bins, 1);
    assert(bins.len() > 0);
    lemma_part_of_measure(bins, 0);
    lemma_rounded_down(measure(bins, 2), n);
    lemma_rounded_down(measure(bins, 3), n);
    lemma_rounded_down(measure(bins, 4), n);
}

proof fn lemma_rounded_down(total: int, n: int)
    requires
        n > 0,
        0 <= total <= 255 * n,
    ensures
        0 <= total / n <= 255,
        n * (total / n) <= total < n * (total / n + 1),
{
    lemma_byte(total, n);
    assert(n * (total / n) <= total && total < n * (total / n + 1)) by (nonlinear_arith)
        requires
            n > 0,
    ;
}

} // verus!
