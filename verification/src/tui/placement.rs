//! What a terminal makes of a kitty picture: the keys that it is given, and
//! the bytes that it is sent.
use vstd::prelude::*;

use crate::text::decimal;
use crate::text::digit;
use crate::tui::base64::base64_is_plain_text;
use crate::tui::base64::base64_reads_back;
use crate::tui::base64::decoded;
use crate::tui::base64::encoded;
use crate::tui::bytes::ascii;
use crate::tui::bytes::number;
use crate::tui::image::Image;
use crate::tui::preview::KITTY_CHUNK;
use crate::tui::preview::Layout;
use crate::tui::preview::chunk_end;
use crate::tui::preview::chunk_header;
use crate::tui::preview::chunks;
use crate::tui::preview::kitty_bytes;

verus! {

/// What a terminal has read.
pub struct Placement {
    /// Whether the bytes that come are those of the picture.
    pub data: bool,
    /// Whether the last bytes of the picture have come.
    pub done: bool,
    /// The last byte that could be a key.
    pub last: u8,
    /// The key that a number is read for.
    pub key: u8,
    /// The numbers, by their keys.
    pub values: Map<u8, int>,
    pub payload: Seq<u8>,
}

/// A terminal that has read nothing.
pub open spec fn blank() -> Placement {
    Placement {
        data: false,
        done: false,
        last: 0,
        key: 0,
        values: Map::empty(),
        payload: Seq::empty(),
    }
}

/// The terminal after one byte. A semicolon opens the bytes of the picture and
/// an escape closes them; where no more was said to follow, the picture is
/// done and takes nothing after that.
pub open spec fn after_byte(p: Placement, b: u8) -> Placement {
    if p.data {
        if b == 27 {
            Placement { data: false, done: p.done || p.values[109] == 0, last: b, ..p }
        } else if p.done {
            p
        } else {
            Placement { payload: p.payload.push(b), ..p }
        }
    } else if b == 59 {
        Placement { data: true, ..p }
    } else if b == 61 {
        Placement { key: p.last, values: p.values.insert(p.last, 0), ..p }
    } else if 48 <= b <= 57 {
        Placement { values: p.values.insert(p.key, p.values[p.key] * 10 + (b - 48)), ..p }
    } else {
        Placement { last: b, ..p }
    }
}

/// The terminal after the first `n` bytes.
pub open spec fn read(bytes: Seq<u8>, n: int, p: Placement) -> Placement
    decreases n,
{
    if n <= 0 {
        p
    } else {
        after_byte(read(bytes, n - 1, p), bytes[n - 1])
    }
}

/// The terminal after all bytes.
pub open spec fn read_all(bytes: Seq<u8>, p: Placement) -> Placement {
    read(bytes, bytes.len() as int, p)
}

proof fn lemma_read_start(a: Seq<u8>, b: Seq<u8>, n: int, p: Placement)
    requires
        0 <= n <= a.len(),
    ensures
        read(a + b, n, p) == read(a, n, p),
    decreases n,
{
    if n > 0 {
        lemma_read_start(a, b, n - 1, p);
        assert((a + b)[n - 1] == a[n - 1]);
    }
}

proof fn lemma_read_on(a: Seq<u8>, b: Seq<u8>, m: int, p: Placement)
    requires
        0 <= m <= b.len(),
    ensures
        read(a + b, a.len() + m, p) == read(b, m, read_all(a, p)),
    decreases m,
{
    if m == 0 {
        lemma_read_start(a, b, a.len() as int, p);
    } else {
        lemma_read_on(a, b, m - 1, p);
        assert((a + b)[a.len() + m - 1] == b[m - 1]);
    }
}

proof fn lemma_read_concat(a: Seq<u8>, b: Seq<u8>, p: Placement)
    ensures
        read_all(a + b, p) == read_all(b, read_all(a, p)),
{
    lemma_read_on(a, b, b.len() as int, p);
}

/// A number is read digit by digit.
proof fn lemma_read_number(n: nat, p: Placement)
    requires
        !p.data,
        p.values[p.key] == 0,
    ensures
        read_all(number(n as int), p) == (Placement { values: p.values.insert(p.key, n as int), ..p }),
    decreases n,
{
    let s = number(n as int);
    if n < 10 {
        assert(s.len() == 1);
        assert(decimal(n)[0] == digit(n));
        assert(s[0] == 48 + n);
        assert(read(s, 0, p) == p);
        assert(read(s, 1, p) == after_byte(p, s[0]));
    } else {
        let front = number((n / 10) as int);
        let d = digit(n % 10);
        assert(decimal(n) =~= decimal(n / 10).push(d));
        let tail = seq![(48 + n % 10) as u8];
        assert((d as u32) as u8 == 48 + n % 10);
        assert(s =~= front + tail);
        lemma_read_number(n / 10, p);
        lemma_read_concat(front, tail, p);
        let q = read_all(front, p);
        assert(read(tail, 0, q) == q);
        assert(read(tail, 1, q) == after_byte(q, tail[0]));
        assert(after_byte(q, tail[0]).values =~= p.values.insert(p.key, n as int));
    }
}

/// The bytes of a picture are taken as they are.
proof fn lemma_read_data(d: Seq<u8>, n: int, p: Placement)
    requires
        p.data,
        !p.done,
        0 <= n <= d.len(),
        forall|k: int| 0 <= k < d.len() ==> #[trigger] d[k] != 27,
    ensures
        read(d, n, p) == (Placement { payload: p.payload + d.take(n), ..p }),
    decreases n,
{
    if n == 0 {
        assert(p.payload + d.take(0) =~= p.payload);
    } else {
        lemma_read_data(d, n - 1, p);
        assert(p.payload + d.take(n) =~= (p.payload + d.take(n - 1)).push(d[n - 1]));
    }
}

proof fn lemma_read_delete(p: Placement)
    requires
        !p.data,
    ensures
        read_all(ascii("\u{1b}_Ga=d,d=A\u{1b}\\"@), p).payload == p.payload,
        !read_all(ascii("\u{1b}_Ga=d,d=A\u{1b}\\"@), p).data,
        read_all(ascii("\u{1b}_Ga=d,d=A\u{1b}\\"@), p).done == p.done,
{
    reveal_strlit("\u{1b}_Ga=d,d=A\u{1b}\\");
    let s = ascii("\u{1b}_Ga=d,d=A\u{1b}\\"@);
    assert(s.len() == 12);
    assert(read(s, 0, p) == p);
    assert(s[0] == 27);
    let p1 = after_byte(p, 27);
    assert(read(s, 1, p) == p1);
    assert(s[1] == 95);
    let p2 = after_byte(p1, 95);
    assert(read(s, 2, p) == p2);
    assert(s[2] == 71);
    let p3 = after_byte(p2, 71);
    assert(read(s, 3, p) == p3);
    assert(s[3] == 97);
    let p4 = after_byte(p3, 97);
    assert(read(s, 4, p) == p4);
    assert(s[4] == 61);
    let p5 = after_byte(p4, 61);
    assert(read(s, 5, p) == p5);
    assert(s[5] == 100);
    let p6 = after_byte(p5, 100);
    assert(read(s, 6, p) == p6);
    assert(s[6] == 44);
    let p7 = after_byte(p6, 44);
    assert(read(s, 7, p) == p7);
    assert(s[7] == 100);
    let p8 = after_byte(p7, 100);
    assert(read(s, 8, p) == p8);
    assert(s[8] == 61);
    let p9 = after_byte(p8, 61);
    assert(read(s, 9, p) == p9);
    assert(s[9] == 65);
    let p10 = after_byte(p9, 65);
    assert(read(s, 10, p) == p10);
    assert(s[10] == 27);
    let p11 = after_byte(p10, 27);
    assert(read(s, 11, p) == p11);
    assert(s[11] == 92);
    let p12 = after_byte(p11, 92);
    assert(read(s, 12, p) == p12);
}

proof fn lemma_read_begin(p: Placement)
    requires
        !p.data,
    ensures
        read_all(ascii("\u{1b}_Ga=T,f=24,s="@), p).payload == p.payload,
        !read_all(ascii("\u{1b}_Ga=T,f=24,s="@), p).data,
        read_all(ascii("\u{1b}_Ga=T,f=24,s="@), p).done == p.done,
        read_all(ascii("\u{1b}_Ga=T,f=24,s="@), p).key == 115,
        read_all(ascii("\u{1b}_Ga=T,f=24,s="@), p).values[102] == 24,
        read_all(ascii("\u{1b}_Ga=T,f=24,s="@), p).values[115] == 0,
{
    reveal_strlit("\u{1b}_Ga=T,f=24,s=");
    let s = ascii("\u{1b}_Ga=T,f=24,s="@);
    assert(s.len() == 14);
    assert(read(s, 0, p) == p);
    assert(s[0] == 27);
    let p1 = after_byte(p, 27);
    assert(read(s, 1, p) == p1);
    assert(s[1] == 95);
    let p2 = after_byte(p1, 95);
    assert(read(s, 2, p) == p2);
    assert(s[2] == 71);
    let p3 = after_byte(p2, 71);
    assert(read(s, 3, p) == p3);
    assert(s[3] == 97);
    let p4 = after_byte(p3, 97);
    assert(read(s, 4, p) == p4);
    assert(s[4] == 61);
    let p5 = after_byte(p4, 61);
    assert(read(s, 5, p) == p5);
    assert(s[5] == 84);
    let p6 = after_byte(p5, 84);
    assert(read(s, 6, p) == p6);
    assert(s[6] == 44);
    let p7 = after_byte(p6, 44);
    assert(read(s, 7, p) == p7);
    assert(s[7] == 102);
    let p8 = after_byte(p7, 102);
    assert(read(s, 8, p) == p8);
    assert(s[8] == 61);
    let p9 = after_byte(p8, 61);
    assert(read(s, 9, p) == p9);
    assert(s[9] == 50);
    let p10 = after_byte(p9, 50);
    assert(read(s, 10, p) == p10);
    assert(s[10] == 52);
    let p11 = after_byte(p10, 52);
    assert(read(s, 11, p) == p11);
    assert(s[11] == 44);
    let p12 = after_byte(p11, 44);
    assert(read(s, 12, p) == p12);
    assert(s[12] == 115);
    let p13 = after_byte(p12, 115);
    assert(read(s, 13, p) == p13);
    assert(s[13] == 61);
    let p14 = after_byte(p13, 61);
    assert(read(s, 14, p) == p14);
}

proof fn lemma_read_height(p: Placement)
    requires
        !p.data,
    ensures
        read_all(ascii(",v="@), p).payload == p.payload,
        !read_all(ascii(",v="@), p).data,
        read_all(ascii(",v="@), p).done == p.done,
        read_all(ascii(",v="@), p).key == 118,
        read_all(ascii(",v="@), p).values == p.values.insert(118, 0),
{
    reveal_strlit(",v=");
    let s = ascii(",v="@);
    assert(s.len() == 3);
    assert(read(s, 0, p) == p);
    assert(s[0] == 44);
    let p1 = after_byte(p, 44);
    assert(read(s, 1, p) == p1);
    assert(s[1] == 118);
    let p2 = after_byte(p1, 118);
    assert(read(s, 2, p) == p2);
    assert(s[2] == 61);
    let p3 = after_byte(p2, 61);
    assert(read(s, 3, p) == p3);
}

proof fn lemma_read_columns(p: Placement)
    requires
        !p.data,
    ensures
        read_all(ascii(",c="@), p).payload == p.payload,
        !read_all(ascii(",c="@), p).data,
        read_all(ascii(",c="@), p).done == p.done,
        read_all(ascii(",c="@), p).key == 99,
        read_all(ascii(",c="@), p).values == p.values.insert(99, 0),
{
    reveal_strlit(",c=");
    let s = ascii(",c="@);
    assert(s.len() == 3);
    assert(read(s, 0, p) == p);
    assert(s[0] == 44);
    let p1 = after_byte(p, 44);
    assert(read(s, 1, p) == p1);
    assert(s[1] == 99);
    let p2 = after_byte(p1, 99);
    assert(read(s, 2, p) == p2);
    assert(s[2] == 61);
    let p3 = after_byte(p2, 61);
    assert(read(s, 3, p) == p3);
}

proof fn lemma_read_rows(p: Placement)
    requires
        !p.data,
    ensures
        read_all(ascii(",r="@), p).payload == p.payload,
        !read_all(ascii(",r="@), p).data,
        read_all(ascii(",r="@), p).done == p.done,
        read_all(ascii(",r="@), p).key == 114,
        read_all(ascii(",r="@), p).values == p.values.insert(114, 0),
{
    reveal_strlit(",r=");
    let s = ascii(",r="@);
    assert(s.len() == 3);
    assert(read(s, 0, p) == p);
    assert(s[0] == 44);
    let p1 = after_byte(p, 44);
    assert(read(s, 1, p) == p1);
    assert(s[1] == 114);
    let p2 = after_byte(p1, 114);
    assert(read(s, 2, p) == p2);
    assert(s[2] == 61);
    let p3 = after_byte(p2, 61);
    assert(read(s, 3, p) == p3);
}

proof fn lemma_read_more(p: Placement)
    requires
        !p.data,
    ensures
        read_all(ascii(",q=2,m="@), p).payload == p.payload,
        !read_all(ascii(",q=2,m="@), p).data,
        read_all(ascii(",q=2,m="@), p).done == p.done,
        read_all(ascii(",q=2,m="@), p).key == 109,
        read_all(ascii(",q=2,m="@), p).values[109] == 0,
        read_all(ascii(",q=2,m="@), p).values[102] == p.values[102],
        read_all(ascii(",q=2,m="@), p).values[115] == p.values[115],
        read_all(ascii(",q=2,m="@), p).values[118] == p.values[118],
        read_all(ascii(",q=2,m="@), p).values[99] == p.values[99],
        read_all(ascii(",q=2,m="@), p).values[114] == p.values[114],
{
    reveal_strlit(",q=2,m=");
    let s = ascii(",q=2,m="@);
    assert(s.len() == 7);
    assert(read(s, 0, p) == p);
    assert(s[0] == 44);
    let p1 = after_byte(p, 44);
    assert(read(s, 1, p) == p1);
    assert(s[1] == 113);
    let p2 = after_byte(p1, 113);
    assert(read(s, 2, p) == p2);
    assert(s[2] == 61);
    let p3 = after_byte(p2, 61);
    assert(read(s, 3, p) == p3);
    assert(s[3] == 50);
    let p4 = after_byte(p3, 50);
    assert(read(s, 4, p) == p4);
    assert(s[4] == 44);
    let p5 = after_byte(p4, 44);
    assert(read(s, 5, p) == p5);
    assert(s[5] == 109);
    let p6 = after_byte(p5, 109);
    assert(read(s, 6, p) == p6);
    assert(s[6] == 61);
    let p7 = after_byte(p6, 61);
    assert(read(s, 7, p) == p7);
}

proof fn lemma_read_next(p: Placement)
    requires
        !p.data,
    ensures
        read_all(ascii("\u{1b}_Gm="@), p).payload == p.payload,
        !read_all(ascii("\u{1b}_Gm="@), p).data,
        read_all(ascii("\u{1b}_Gm="@), p).done == p.done,
        read_all(ascii("\u{1b}_Gm="@), p).key == 109,
        read_all(ascii("\u{1b}_Gm="@), p).values == p.values.insert(109, 0),
{
    reveal_strlit("\u{1b}_Gm=");
    let s = ascii("\u{1b}_Gm="@);
    assert(s.len() == 5);
    assert(read(s, 0, p) == p);
    assert(s[0] == 27);
    let p1 = after_byte(p, 27);
    assert(read(s, 1, p) == p1);
    assert(s[1] == 95);
    let p2 = after_byte(p1, 95);
    assert(read(s, 2, p) == p2);
    assert(s[2] == 71);
    let p3 = after_byte(p2, 71);
    assert(read(s, 3, p) == p3);
    assert(s[3] == 109);
    let p4 = after_byte(p3, 109);
    assert(read(s, 4, p) == p4);
    assert(s[4] == 61);
    let p5 = after_byte(p4, 61);
    assert(read(s, 5, p) == p5);
}

proof fn lemma_read_one(p: Placement)
    requires
        !p.data,
        p.key == 109,
        p.values[109] == 0,
    ensures
        read_all(ascii("1;"@), p).payload == p.payload,
        read_all(ascii("1;"@), p).data,
        read_all(ascii("1;"@), p).done == p.done,
        read_all(ascii("1;"@), p).values == p.values.insert(109, 1),
{
    reveal_strlit("1;");
    let s = ascii("1;"@);
    assert(s.len() == 2);
    assert(read(s, 0, p) == p);
    assert(s[0] == 49);
    let p1 = after_byte(p, 49);
    assert(read(s, 1, p) == p1);
    assert(s[1] == 59);
    let p2 = after_byte(p1, 59);
    assert(read(s, 2, p) == p2);
}

proof fn lemma_read_none(p: Placement)
    requires
        !p.data,
        p.key == 109,
        p.values[109] == 0,
    ensures
        read_all(ascii("0;"@), p).payload == p.payload,
        read_all(ascii("0;"@), p).data,
        read_all(ascii("0;"@), p).done == p.done,
        read_all(ascii("0;"@), p).values == p.values.insert(109, 0),
{
    reveal_strlit("0;");
    let s = ascii("0;"@);
    assert(s.len() == 2);
    assert(read(s, 0, p) == p);
    assert(s[0] == 48);
    let p1 = after_byte(p, 48);
    assert(read(s, 1, p) == p1);
    assert(s[1] == 59);
    let p2 = after_byte(p1, 59);
    assert(read(s, 2, p) == p2);
}

proof fn lemma_read_end(p: Placement)
    requires
        p.data,
    ensures
        read_all(ascii("\u{1b}\\"@), p).payload == p.payload,
        !read_all(ascii("\u{1b}\\"@), p).data,
        read_all(ascii("\u{1b}\\"@), p).values == p.values,
        read_all(ascii("\u{1b}\\"@), p).done == (p.done || p.values[109] == 0),
{
    reveal_strlit("\u{1b}\\");
    let s = ascii("\u{1b}\\"@);
    assert(s.len() == 2);
    assert(read(s, 0, p) == p);
    assert(s[0] == 27);
    let p1 = after_byte(p, 27);
    assert(read(s, 1, p) == p1);
    assert(s[1] == 92);
    let p2 = after_byte(p1, 92);
    assert(read(s, 2, p) == p2);
}

/// Whether the numbers of a picture are those that it has.
pub open spec fn is_placed(p: Placement, image: Image, layout: Layout) -> bool {
    &&& p.values[102] == 24
    &&& p.values[115] == image.width
    &&& p.values[118] == image.height
    &&& p.values[99] == layout.columns
    &&& p.values[114] == layout.rows
}

proof fn lemma_read_header(image: Image, layout: Layout, start: int, more: bool, p: Placement)
    requires
        !p.data,
        start != 0 ==> is_placed(p, image, layout),
    ensures
        ({
            let q = read_all(chunk_header(image, layout, start, more), p);
            &&& q.data
            &&& q.done == p.done
            &&& q.payload == p.payload
            &&& is_placed(q, image, layout)
            &&& q.values[109] == (if more {
                1int
            } else {
                0
            })
        }),
{
    let m = if more {
        ascii("1;"@)
    } else {
        ascii("0;"@)
    };
    if start == 0 {
        let a1 = ascii("\u{1b}_Ga=T,f=24,s="@);
        let a2 = a1 + number(image.width as int);
        let a3 = a2 + ascii(",v="@);
        let a4 = a3 + number(image.height as int);
        let a5 = a4 + ascii(",c="@);
        let a6 = a5 + number(layout.columns as int);
        let a7 = a6 + ascii(",r="@);
        let a8 = a7 + number(layout.rows as int);
        let a9 = a8 + ascii(",q=2,m="@);
        lemma_read_begin(p);
        let p1 = read_all(a1, p);
        lemma_read_concat(a1, number(image.width as int), p);
        lemma_read_number(image.width as nat, p1);
        let p2 = read_all(a2, p);
        lemma_read_concat(a2, ascii(",v="@), p);
        lemma_read_height(p2);
        let p3 = read_all(a3, p);
        lemma_read_concat(a3, number(image.height as int), p);
        lemma_read_number(image.height as nat, p3);
        let p4 = read_all(a4, p);
        lemma_read_concat(a4, ascii(",c="@), p);
        lemma_read_columns(p4);
        let p5 = read_all(a5, p);
        lemma_read_concat(a5, number(layout.columns as int), p);
        lemma_read_number(layout.columns as nat, p5);
        let p6 = read_all(a6, p);
        lemma_read_concat(a6, ascii(",r="@), p);
        lemma_read_rows(p6);
        let p7 = read_all(a7, p);
        lemma_read_concat(a7, number(layout.rows as int), p);
        lemma_read_number(layout.rows as nat, p7);
        let p8 = read_all(a8, p);
        lemma_read_concat(a8, ascii(",q=2,m="@), p);
        lemma_read_more(p8);
        let p9 = read_all(a9, p);
        lemma_read_concat(a9, m, p);
        if more {
            lemma_read_one(p9);
        } else {
            lemma_read_none(p9);
        }
    } else {
        let a1 = ascii("\u{1b}_Gm="@);
        lemma_read_next(p);
        let p1 = read_all(a1, p);
        lemma_read_concat(a1, m, p);
        if more {
            lemma_read_one(p1);
        } else {
            lemma_read_none(p1);
        }
    }
}

proof fn lemma_read_chunks(image: Image, layout: Layout, payload: Seq<u8>, start: int, p: Placement)
    requires
        0 <= start < payload.len(),
        !p.data,
        !p.done,
        start != 0 ==> is_placed(p, image, layout),
        forall|k: int| 0 <= k < payload.len() ==> #[trigger] payload[k] != 27,
    ensures
        ({
            let q = read_all(chunks(image, layout, payload, start), p);
            &&& !q.data
            &&& q.done
            &&& q.payload == p.payload + payload.skip(start)
            &&& is_placed(q, image, layout)
        }),
    decreases payload.len() - start,
{
    let end = chunk_end(payload, start);
    let more = end < payload.len();
    let head = chunk_header(image, layout, start, more);
    let part = payload.subrange(start, end);
    let close = ascii("\u{1b}\\"@);
    let rest = chunks(image, layout, payload, end);
    lemma_read_header(image, layout, start, more, p);
    let p1 = read_all(head, p);
    lemma_read_concat(head, part, p);
    lemma_read_data(part, part.len() as int, p1);
    assert(part.take(part.len() as int) =~= part);
    let p2 = read_all(head + part, p);
    assert(p2.payload == p.payload + part);
    lemma_read_concat(head + part, close, p);
    lemma_read_end(p2);
    let p3 = read_all(head + part + close, p);
    lemma_read_concat(head + part + close, rest, p);
    if more {
        lemma_read_chunks(image, layout, payload, end, p3);
        assert(part + payload.skip(end) =~= payload.skip(start));
        assert(p.payload + part + payload.skip(end) =~= p.payload + (part + payload.skip(end)));
    } else {
        assert(rest =~= Seq::<u8>::empty());
        assert(part =~= payload.skip(start));
    }
}

/// Bytes as characters.
pub open spec fn as_text(bytes: Seq<u8>) -> Seq<char> {
    Seq::new(bytes.len(), |i: int| bytes[i] as char)
}

/// A picture reads back: the terminal is told its size and the cells that it
/// covers, and is sent its bytes, whole and in order, with the end of them
/// marked.
pub proof fn a_kitty_picture_reads_back(image: Image, layout: Layout)
    requires
        image.rgb@.len() > 0,
    ensures
        ({
            let p = read_all(kitty_bytes(image, layout), blank());
            &&& is_placed(p, image, layout)
            &&& p.done
            &&& !p.data
            &&& decoded(as_text(p.payload), 0) == image.rgb@
        }),
{
    let text = encoded(image.rgb@, 0);
    let payload = ascii(text);
    base64_reads_back(image.rgb@);
    base64_is_plain_text(image.rgb@, 0);
    let clear = ascii("\u{1b}_Ga=d,d=A\u{1b}\\"@);
    lemma_read_delete(blank());
    let p1 = read_all(clear, blank());
    lemma_read_concat(clear, chunks(image, layout, payload, 0), blank());
    assert(payload.len() > 0);
    assert forall|k: int| 0 <= k < payload.len() implies #[trigger] payload[k] != 27 && payload[k]
        as char == text[k] by {
        assert(43 <= text[k] as int <= 122);
    }
    lemma_read_chunks(image, layout, payload, 0, p1);
    let p = read_all(kitty_bytes(image, layout), blank());
    assert(p.payload =~= payload);
    assert(as_text(p.payload) =~= text);
}

/// A picture is sent in pieces that a terminal takes: none is longer than it
/// may be, and all but the last have whole groups of four characters.
pub proof fn a_piece_is_no_longer_than_it_may_be(payload: Seq<u8>, start: int)
    requires
        0 <= start < payload.len(),
    ensures
        start < chunk_end(payload, start) <= payload.len(),
        chunk_end(payload, start) - start <= KITTY_CHUNK,
        chunk_end(payload, start) < payload.len() ==> chunk_end(payload, start) - start == 4096,
{
}

} // verus!
