//! Base64, with padding and without line breaks.
use vstd::prelude::*;

verus! {

/// The character of six bits.
pub open spec fn symbol(v: int) -> char {
    if v < 26 {
        (65 + v) as char
    } else if v < 52 {
        (97 + v - 26) as char
    } else if v < 62 {
        (48 + v - 52) as char
    } else if v == 62 {
        '+'
    } else {
        '/'
    }
}

/// The six bits of a character; padding counts as nothing.
pub open spec fn six_bits(c: char) -> int {
    if 'A' <= c <= 'Z' {
        c as int - 65
    } else if 'a' <= c <= 'z' {
        c as int - 97 + 26
    } else if '0' <= c <= '9' {
        c as int - 48 + 52
    } else if c == '+' {
        62
    } else if c == '/' {
        63
    } else {
        0
    }
}

/// The byte at `i`; nothing past the end.
pub open spec fn byte_at(bytes: Seq<u8>, i: int) -> int {
    if i < bytes.len() {
        bytes[i] as int
    } else {
        0
    }
}

/// The four characters of three bytes, the missing ones padded.
pub open spec fn quartet(bytes: Seq<u8>, i: int) -> Seq<char> {
    let n = byte_at(bytes, i) * 65536 + byte_at(bytes, i + 1) * 256 + byte_at(bytes, i + 2);
    seq![
        symbol(n / 262144),
        symbol(n / 4096 % 64),
        if i + 1 < bytes.len() {
            symbol(n / 64 % 64)
        } else {
            '='
        },
        if i + 2 < bytes.len() {
            symbol(n % 64)
        } else {
            '='
        },
    ]
}

/// The characters of the bytes from the `i`-th on.
pub open spec fn encoded(bytes: Seq<u8>, i: int) -> Seq<char>
    decreases bytes.len() - i + 2,
{
    if i >= bytes.len() {
        Seq::empty()
    } else {
        quartet(bytes, i) + encoded(bytes, i + 3)
    }
}

/// The bytes that one group of four characters stands for.
pub open spec fn group(text: Seq<char>, j: int) -> Seq<u8> {
    let n = six_bits(text[j]) * 262144 + six_bits(text[j + 1]) * 4096 + six_bits(text[j + 2]) * 64
        + six_bits(text[j + 3]);
    let first = seq![(n / 65536) as u8];
    if text[j + 2] == '=' {
        first
    } else if text[j + 3] == '=' {
        first.push((n / 256 % 256) as u8)
    } else {
        first.push((n / 256 % 256) as u8).push((n % 256) as u8)
    }
}

/// The bytes that the characters from the `j`-th on stand for.
pub open spec fn decoded(text: Seq<char>, j: int) -> Seq<u8>
    decreases text.len() - j,
{
    if j + 4 > text.len() {
        Seq::empty()
    } else {
        group(text, j) + decoded(text, j + 4)
    }
}

proof fn lemma_symbol(v: int)
    requires
        0 <= v < 64,
    ensures
        six_bits(symbol(v)) == v,
        symbol(v) != '=',
{
}

proof fn lemma_decoded_shift(a: Seq<char>, b: Seq<char>, j: int)
    requires
        a.len() == 4,
        0 <= j,
    ensures
        decoded(a + b, j + 4) == decoded(b, j),
    decreases b.len() - j,
{
    if j + 4 <= b.len() {
        assert((a + b)[j + 4] == b[j]);
        assert((a + b)[j + 5] == b[j + 1]);
        assert((a + b)[j + 6] == b[j + 2]);
        assert((a + b)[j + 7] == b[j + 3]);
        lemma_decoded_shift(a, b, j + 4);
    }
}

proof fn lemma_digits(n: int)
    requires
        0 <= n < 16777216,
    ensures
        0 <= n / 262144 < 64,
        n == n / 262144 * 262144 + n / 4096 % 64 * 4096 + n / 64 % 64 * 64 + n % 64,
{
    assert(n == 64 * (n / 64) + n % 64);
    assert(n / 64 == 64 * (n / 64 / 64) + n / 64 % 64);
    assert(n / 64 / 64 == n / 4096);
    assert(n / 4096 == 64 * (n / 4096 / 64) + n / 4096 % 64);
    assert(n / 4096 / 64 == n / 262144);
}

proof fn lemma_parts(b0: int, b1: int, b2: int)
    requires
        0 <= b0 < 256,
        0 <= b1 < 256,
        0 <= b2 < 256,
    ensures
        ({
            let n = b0 * 65536 + b1 * 256 + b2;
            &&& 0 <= n < 16777216
            &&& n / 65536 == b0
            &&& n / 256 % 256 == b1
            &&& n % 256 == b2
            &&& b2 == 0 ==> n % 64 == 0
            &&& b2 == 0 && b1 == 0 ==> n / 64 % 64 == 0
        }),
{
    let n = b0 * 65536 + b1 * 256 + b2;
    assert(n / 256 == b0 * 256 + b1);
    assert(n == (b0 * 256 + b1) * 256 + b2);
}

proof fn lemma_group(bytes: Seq<u8>, i: int)
    requires
        0 <= i < bytes.len(),
    ensures
        group(quartet(bytes, i), 0) == bytes.subrange(
            i,
            if i + 3 < bytes.len() {
                i + 3
            } else {
                bytes.len() as int
            },
        ),
{
    let b0 = byte_at(bytes, i);
    let b1 = byte_at(bytes, i + 1);
    let b2 = byte_at(bytes, i + 2);
    let n = b0 * 65536 + b1 * 256 + b2;
    let q = quartet(bytes, i);
    lemma_parts(b0, b1, b2);
    lemma_digits(n);
    lemma_symbol(n / 262144);
    lemma_symbol(n / 4096 % 64);
    lemma_symbol(n / 64 % 64);
    lemma_symbol(n % 64);
    let m = six_bits(q[0]) * 262144 + six_bits(q[1]) * 4096 + six_bits(q[2]) * 64 + six_bits(q[3]);
    assert(m == n);
    let g = group(q, 0);
    if i + 1 >= bytes.len() {
        assert(g =~= seq![bytes[i]]);
    } else if i + 2 >= bytes.len() {
        assert(g =~= seq![bytes[i], bytes[i + 1]]);
    } else {
        assert(g =~= seq![bytes[i], bytes[i + 1], bytes[i + 2]]);
    }
}

proof fn lemma_reads_back(bytes: Seq<u8>, i: int)
    requires
        0 <= i,
    ensures
        decoded(encoded(bytes, i), 0) == bytes.subrange(
            if i < bytes.len() {
                i
            } else {
                bytes.len() as int
            },
            bytes.len() as int,
        ),
    decreases bytes.len() - i + 2,
{
    if i < bytes.len() {
        lemma_reads_back(bytes, i + 3);
        lemma_group(bytes, i);
        let q = quartet(bytes, i);
        let rest = encoded(bytes, i + 3);
        let all = encoded(bytes, i);
        lemma_decoded_shift(q, rest, 0);
        assert(all[0] == q[0] && all[1] == q[1] && all[2] == q[2] && all[3] == q[3]);
        assert(decoded(all, 0) == group(q, 0) + decoded(all, 4));
        assert(decoded(all, 0) =~= bytes.subrange(i, bytes.len() as int));
    }
}

/// Base64 reads back as the bytes that were written, and takes four characters
/// for every three of them.
pub proof fn base64_reads_back(bytes: Seq<u8>)
    ensures
        decoded(encoded(bytes, 0), 0) == bytes,
        encoded(bytes, 0).len() == (bytes.len() + 2) / 3 * 4,
{
    lemma_reads_back(bytes, 0);
    lemma_encoded_len(bytes, 0);
    assert(bytes.subrange(0, bytes.len() as int) =~= bytes);
}

proof fn lemma_encoded_len(bytes: Seq<u8>, i: int)
    requires
        0 <= i,
    ensures
        encoded(bytes, i).len() == (if i < bytes.len() {
            (bytes.len() - i + 2) / 3 * 4
        } else {
            0
        }),
    decreases bytes.len() - i + 2,
{
    if i < bytes.len() {
        lemma_encoded_len(bytes, i + 3);
    }
}

fn symbol_of(v: u32) -> (c: char)
    requires
        v < 64,
    ensures
        c == symbol(v as int),
{
    if v < 26 {
        (65 + v as u8) as char
    } else if v < 52 {
        (97 + (v as u8 - 26)) as char
    } else if v < 62 {
        (48 + (v as u8 - 52)) as char
    } else if v == 62 {
        '+'
    } else {
        '/'
    }
}

/// Standard base64.
pub fn base64(bytes: &[u8]) -> (out: String)
    ensures
        out@ == encoded(bytes@, 0),
{
    let mut out = String::new();
    let n: usize = bytes.len();
    let mut i: usize = 0;
    assert(out@ + encoded(bytes@, 0) =~= encoded(bytes@, 0));
    while i < n
        invariant
            i <= n == bytes@.len(),
            out@ + encoded(bytes@, i as int) == encoded(bytes@, 0),
        decreases n - i,
    {
        let ghost done = out@;
        let left = n - i;
        let b0: u32 = bytes[i] as u32;
        let b1: u32 = if left > 1 {
            bytes[i + 1] as u32
        } else {
            0
        };
        let b2: u32 = if left > 2 {
            bytes[i + 2] as u32
        } else {
            0
        };
        let v: u32 = b0 * 65536 + b1 * 256 + b2;
        out.push(symbol_of(v / 262144));
        out.push(symbol_of(v / 4096 % 64));
        out.push(
            if left > 1 {
                symbol_of(v / 64 % 64)
            } else {
                '='
            },
        );
        out.push(
            if left > 2 {
                symbol_of(v % 64)
            } else {
                '='
            },
        );
        let ghost rest = encoded(bytes@, i + 3);
        assert(out@ =~= done + quartet(bytes@, i as int));
        assert(out@ + rest =~= done + (quartet(bytes@, i as int) + rest));
        if left > 3 {
            i = i + 3;
        } else {
            assert(rest =~= encoded(bytes@, n as int));
            i = n;
        }
    }
    assert(encoded(bytes@, i as int) =~= Seq::<char>::empty());
    assert(out@ =~= out@ + encoded(bytes@, i as int));
    out
}

/// Base64 is plain text: letters, digits and four marks.
pub proof fn base64_is_plain_text(bytes: Seq<u8>, i: int)
    requires
        0 <= i,
    ensures
        forall|k: int|
            0 <= k < encoded(bytes, i).len() ==> 43 <= (#[trigger] encoded(bytes, i)[k]) as int
                <= 122,
    decreases bytes.len() - i + 2,
{
    if i < bytes.len() {
        base64_is_plain_text(bytes, i + 3);
        let b0 = byte_at(bytes, i);
        let b1 = byte_at(bytes, i + 1);
        let b2 = byte_at(bytes, i + 2);
        lemma_parts(b0, b1, b2);
        let n = b0 * 65536 + b1 * 256 + b2;
        lemma_digits(n);
        lemma_plain_symbol(n / 262144);
        lemma_plain_symbol(n / 4096 % 64);
        lemma_plain_symbol(n / 64 % 64);
        lemma_plain_symbol(n % 64);
        let q = quartet(bytes, i);
        assert forall|k: int| 0 <= k < encoded(bytes, i).len() implies 43 <= (
        #[trigger] encoded(bytes, i)[k]) as int <= 122 by {
            if k < 4 {
                assert(encoded(bytes, i)[k] == q[k]);
                assert(k == 0 || k == 1 || k == 2 || k == 3);
            } else {
                assert(encoded(bytes, i)[k] == encoded(bytes, i + 3)[k - 4]);
            }
        }
    }
}

proof fn lemma_plain_symbol(v: int)
    requires
        0 <= v < 64,
    ensures
        43 <= symbol(v) as int <= 122,
{
}

} // verus!
