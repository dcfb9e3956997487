//! Building text: decimal numbers and concatenation, with exact contents.
use vstd::prelude::*;
use vstd::string::*;

verus! {

/// `String::push` appends one character and changes nothing else.
pub assume_specification[ String::push ](s: &mut String, c: char)
    ensures
        final(s)@ == old(s)@.push(c),
;

/// The character that writes the digit `d`.
pub open spec fn digit(d: nat) -> char {
    (48 + d) as char
}

/// `n` in base ten, without leading zeros.
pub open spec fn decimal(n: nat) -> Seq<char>
    decreases n,
{
    if n < 10 {
        seq![digit(n)]
    } else {
        decimal(n / 10).push(digit(n % 10))
    }
}

/// `n` in base ten, padded on the left with zeros to at least `width` digits.
pub open spec fn padded(n: nat, width: nat) -> Seq<char>
    decreases width,
{
    if width <= 1 {
        decimal(n)
    } else if n < 10 {
        zeros((width - 1) as nat).push(digit(n))
    } else {
        padded(n / 10, (width - 1) as nat).push(digit(n % 10))
    }
}

/// A run of `n` zeros.
pub open spec fn zeros(n: nat) -> Seq<char> {
    Seq::new(n, |i: int| '0')
}

/// Writes one decimal digit.
pub fn push_digit(s: &mut String, d: u64)
    requires
        d < 10,
    ensures
        final(s)@ == old(s)@.push(digit(d as nat)),
{
    let c: char = match d {
        0 => '0',
        1 => '1',
        2 => '2',
        3 => '3',
        4 => '4',
        5 => '5',
        6 => '6',
        7 => '7',
        8 => '8',
        _ => '9',
    };
    s.push(c);
}

/// Appends `n` in base ten.
pub fn push_decimal(s: &mut String, n: u64)
    ensures
        final(s)@ == old(s)@ + decimal(n as nat),
    decreases n,
{
    if n >= 10 {
        push_decimal(s, n / 10);
    }
    push_digit(s, n % 10);
    assert(s@ =~= old(s)@ + decimal(n as nat));
}

/// Appends `n` in base ten, padded with zeros to `width` digits.
pub fn push_padded(s: &mut String, n: u64, width: u64)
    ensures
        final(s)@ == old(s)@ + padded(n as nat, width as nat),
    decreases width,
{
    if width <= 1 {
        push_decimal(s, n);
    } else if n < 10 {
        let mut i: u64 = 0;
        while i < width - 1
            invariant
                width > 1,
                i <= width - 1,
                s@ == old(s)@ + zeros(i as nat),
            decreases width - i,
        {
            s.push('0');
            assert(s@ =~= old(s)@ + zeros((i + 1) as nat));
            i = i + 1;
        }
        push_digit(s, n);
        assert(s@ =~= old(s)@ + padded(n as nat, width as nat));
    } else {
        push_padded(s, n / 10, width - 1);
        push_digit(s, n % 10);
        assert(s@ =~= old(s)@ + padded(n as nat, width as nat));
    }
}

/// `n` in base ten.
pub fn decimal_string(n: u64) -> (s: String)
    ensures
        s@ == decimal(n as nat),
{
    let mut s = String::new();
    push_decimal(&mut s, n);
    assert(s@ =~= decimal(n as nat));
    s
}

/// `a` followed by `b`.
pub fn join(a: &str, b: &str) -> (s: String)
    ensures
        s@ == a@ + b@,
{
    let mut s = a.to_owned();
    s.append(b);
    s
}

/// `a`, `b` and `c`, one after the other.
pub fn join3(a: &str, b: &str, c: &str) -> (s: String)
    ensures
        s@ == a@ + b@ + c@,
{
    let mut s = a.to_owned();
    s.append(b);
    s.append(c);
    s
}

/// Whether two texts hold the same characters.
pub fn same_text(a: &str, b: &str) -> (same: bool)
    ensures
        same == (a@ == b@),
{
    let n: usize = a.unicode_len();
    if n != b.unicode_len() {
        return false;
    }
    let mut i: usize = 0;
    while i < n
        invariant
            i <= n,
            n == a@.len(),
            n == b@.len(),
            forall|k: int| 0 <= k < i ==> a@[k] == b@[k],
        decreases n - i,
    {
        if a.get_char(i) != b.get_char(i) {
            return false;
        }
        i = i + 1;
    }
    assert(a@ =~= b@);
    true
}

/// Whether `a` comes before `b` in the order of their characters.
pub open spec fn precedes(a: Seq<char>, b: Seq<char>) -> bool
    decreases a.len(),
{
    if b.len() == 0 {
        false
    } else if a.len() == 0 {
        true
    } else if a[0] != b[0] {
        (a[0] as int) < (b[0] as int)
    } else {
        precedes(a.drop_first(), b.drop_first())
    }
}

/// The order of texts is strict and total.
pub proof fn lemma_precedes_total(a: Seq<char>, b: Seq<char>)
    ensures
        !(precedes(a, b) && precedes(b, a)),
        precedes(a, b) || precedes(b, a) || a == b,
        a == b ==> !precedes(a, b),
    decreases a.len(),
{
    if a.len() > 0 && b.len() > 0 {
        if a[0] == b[0] {
            lemma_precedes_total(a.drop_first(), b.drop_first());
            if a.drop_first() == b.drop_first() {
                assert(a =~= seq![a[0]] + a.drop_first());
                assert(b =~= seq![b[0]] + b.drop_first());
            }
        }
    } else if a.len() == 0 && b.len() == 0 {
        assert(a =~= b);
    }
}

/// The order of texts is transitive.
pub proof fn lemma_precedes_transitive(a: Seq<char>, b: Seq<char>, c: Seq<char>)
    requires
        precedes(a, b),
        precedes(b, c),
    ensures
        precedes(a, c),
    decreases a.len(),
{
    if a.len() > 0 {
        if a[0] == b[0] && b[0] == c[0] {
            lemma_precedes_transitive(a.drop_first(), b.drop_first(), c.drop_first());
        }
    }
}

/// Whether `a` comes before `b`.
pub fn comes_before(a: &str, b: &str) -> (before: bool)
    ensures
        before == precedes(a@, b@),
{
    let n: usize = a.unicode_len();
    let m: usize = b.unicode_len();
    let mut i: usize = 0;
    assert(a@.skip(0) =~= a@);
    assert(b@.skip(0) =~= b@);
    while i < n && i < m
        invariant
            i <= n,
            i <= m,
            n == a@.len(),
            m == b@.len(),
            precedes(a@, b@) == precedes(a@.skip(i as int), b@.skip(i as int)),
        decreases n - i,
    {
        let c: char = a.get_char(i);
        let d: char = b.get_char(i);
        if c != d {
            return (c as u32) < (d as u32);
        }
        assert(a@.skip(i as int).drop_first() =~= a@.skip(i as int + 1));
        assert(b@.skip(i as int).drop_first() =~= b@.skip(i as int + 1));
        i = i + 1;
    }
    i < m
}

/// A copy of the characters of `s`.
pub fn chars_of(s: &str) -> (v: Vec<char>)
    ensures
        v@ == s@,
{
    let n: usize = s.unicode_len();
    let mut v: Vec<char> = Vec::new();
    let mut i: usize = 0;
    while i < n
        invariant
            i <= n,
            n == s@.len(),
            v@ == s@.subrange(0, i as int),
        decreases n - i,
    {
        v.push(s.get_char(i));
        i = i + 1;
        assert(v@ =~= s@.subrange(0, i as int));
    }
    assert(v@ =~= s@);
    v
}

/// The text made of `chars`.
pub fn text_of(chars: &[char]) -> (s: String)
    ensures
        s@ == chars@,
{
    let mut s = String::new();
    let mut i: usize = 0;
    while i < chars.len()
        invariant
            i <= chars@.len(),
            s@ == chars@.subrange(0, i as int),
        decreases chars@.len() - i,
    {
        s.push(chars[i]);
        i = i + 1;
        assert(s@ =~= chars@.subrange(0, i as int));
    }
    assert(s@ =~= chars@);
    s
}

/// `n` copies of the character `c`.
pub fn repeated(c: char, n: usize) -> (s: String)
    ensures
        s@ == Seq::new(n as nat, |i: int| c),
{
    let mut s = String::new();
    let mut i: usize = 0;
    while i < n
        invariant
            i <= n,
            s@ == Seq::new(i as nat, |k: int| c),
        decreases n - i,
    {
        s.push(c);
        i = i + 1;
        assert(s@ =~= Seq::new(i as nat, |k: int| c));
    }
    s
}

/// A signed number in base ten.
pub open spec fn signed(n: int) -> Seq<char> {
    if n < 0 { seq!['-'] + decimal((-n) as nat) } else { decimal(n as nat) }
}

/// Appends a signed number in base ten.
pub fn push_signed(s: &mut String, n: i32)
    ensures
        final(s)@ == old(s)@ + signed(n as int),
{
    if n < 0 {
        s.push('-');
        push_decimal(s, (-(n as i64)) as u64);
        assert(s@ =~= old(s)@ + signed(n as int));
    } else {
        push_decimal(s, n as u64);
    }
}

/// The number of a character.
pub fn code_of(c: char) -> (n: u32)
    ensures
        n == c as int,
{
    c as u32
}

/// The characters that count as white space.
pub open spec fn is_space(c: char) -> bool {
    let n = c as int;
    9 <= n <= 13 || n == 32 || n == 0x85 || n == 0xa0 || n == 0x1680 || 0x2000 <= n <= 0x200a || n
        == 0x2028 || n == 0x2029 || n == 0x202f || n == 0x205f || n == 0x3000
}

fn space(c: char) -> (b: bool)
    ensures
        b == is_space(c),
{
    let n: u32 = c as u32;
    (9 <= n && n <= 13) || n == 32 || n == 0x85 || n == 0xa0 || n == 0x1680 || (0x2000 <= n && n
        <= 0x200a) || n == 0x2028 || n == 0x2029 || n == 0x202f || n == 0x205f || n == 0x3000
}

/// A text without the white space at its ends.
pub open spec fn trimmed(s: Seq<char>) -> Seq<char>
    decreases s.len(),
{
    if s.len() == 0 {
        s
    } else if is_space(s[0]) {
        trimmed(s.drop_first())
    } else if is_space(s.last()) {
        trimmed(s.drop_last())
    } else {
        s
    }
}

/// A copy of `chars` without the white space at its ends.
pub fn trim_chars(chars: &[char]) -> (v: Vec<char>)
    ensures
        v@ == trimmed(chars@),
{
    let mut lo: usize = 0;
    let mut hi: usize = chars.len();
    assert(chars@.subrange(0, chars@.len() as int) =~= chars@);
    while lo < hi && space(chars[lo])
        invariant
            lo <= hi,
            hi == chars@.len(),
            trimmed(chars@.subrange(lo as int, hi as int)) == trimmed(chars@),
        decreases hi - lo,
    {
        assert(chars@.subrange(lo as int, hi as int).drop_first() =~= chars@.subrange(
            lo as int + 1,
            hi as int,
        ));
        lo = lo + 1;
    }
    while lo < hi && space(chars[hi - 1])
        invariant
            lo <= hi <= chars@.len(),
            lo < hi ==> !is_space(chars@[lo as int]),
            trimmed(chars@.subrange(lo as int, hi as int)) == trimmed(chars@),
        decreases hi - lo,
    {
        assert(chars@.subrange(lo as int, hi as int).drop_last() =~= chars@.subrange(
            lo as int,
            hi as int - 1,
        ));
        hi = hi - 1;
    }
    let mut v: Vec<char> = Vec::new();
    let mut i: usize = lo;
    while i < hi
        invariant
            lo <= i <= hi <= chars@.len(),
            v@ == chars@.subrange(lo as int, i as int),
        decreases hi - i,
    {
        v.push(chars[i]);
        i = i + 1;
        assert(v@ =~= chars@.subrange(lo as int, i as int));
    }
    v
}

/// The value of a decimal digit.
pub open spec fn digit_value(c: char) -> Option<int> {
    if 48 <= c as int <= 57 { Some(c as int - 48) } else { None }
}

/// The number that a non-empty run of digits writes.
pub open spec fn digits_value(s: Seq<char>) -> Option<int>
    decreases s.len(),
{
    if s.len() == 0 {
        None
    } else {
        match digit_value(s.last()) {
            None => None,
            Some(d) => if s.len() == 1 {
                Some(d)
            } else {
                match digits_value(s.drop_last()) {
                    None => None,
                    Some(n) => Some(10 * n + d),
                }
            },
        }
    }
}

/// The number that a text writes: digits, after at most one sign.
pub open spec fn integer_value(s: Seq<char>) -> Option<int> {
    if s.len() > 0 && s[0] == '-' {
        match digits_value(s.drop_first()) {
            Some(n) => Some(-n),
            None => None,
        }
    } else if s.len() > 0 && s[0] == '+' {
        digits_value(s.drop_first())
    } else {
        digits_value(s)
    }
}

proof fn lemma_digits_grow(s: Seq<char>, n: int)
    requires
        0 < n <= s.len(),
        digits_value(s) is Some,
    ensures
        digits_value(s.take(n)) is Some,
        0 <= digits_value(s.take(n))->Some_0 <= digits_value(s)->Some_0,
    decreases s.len(),
{
    if n == s.len() {
        assert(s.take(n) =~= s);
        if s.len() > 1 {
            lemma_digits_grow(s.drop_last(), s.len() - 1);
        }
    } else {
        lemma_digits_grow(s.drop_last(), n);
        assert(s.drop_last().take(n) =~= s.take(n));
    }
}

/// Reads digits from `from` on; `None` where they do not write a number up to
/// `limit`.
fn parse_digits(chars: &[char], from: usize, limit: u64) -> (n: Option<u64>)
    requires
        from <= chars@.len(),
        limit <= 0xffff_ffff,
    ensures
        match n {
            Some(n) => n <= limit && digits_value(chars@.skip(from as int)) == Some(n as int),
            None => match digits_value(chars@.skip(from as int)) {
                Some(v) => v > limit,
                None => true,
            },
        },
{
    let ghost all = chars@.skip(from as int);
    if from == chars.len() {
        return None;
    }
    let mut value: u64 = 0;
    let mut i: usize = from;
    while i < chars.len()
        invariant
            from <= i <= chars@.len(),
            from < chars@.len(),
            all == chars@.skip(from as int),
            limit <= 0xffff_ffff,
            value <= limit,
            i > from ==> digits_value(all.take(i - from)) == Some(value as int),
            i == from ==> value == 0,
        decreases chars@.len() - i,
    {
        let c: char = chars[i];
        let ghost taken = all.take(i - from + 1);
        assert(taken.drop_last() =~= all.take(i - from));
        assert(taken.last() == c);
        let code: u32 = code_of(c);
        if code < 48 || code > 57 {
            proof {
                if digits_value(all) is Some {
                    lemma_digits_grow(all, i - from + 1);
                }
            }
            return None;
        }
        let next: u64 = 10 * value + (code - 48) as u64;
        if next > limit {
            proof {
                if digits_value(all) is Some {
                    lemma_digits_grow(all, i - from + 1);
                }
            }
            return None;
        }
        assert(digit_value(c) == Some(code as int - 48));
        assert(taken.len() == i - from + 1);
        assert(digits_value(taken) == Some(next as int));
        value = next;
        i = i + 1;
        assert(all.take(i - from) =~= taken);
    }
    assert(all.take(i - from) =~= all);
    Some(value)
}

/// The 32-bit number that a text writes, white space at its ends aside.
pub fn parse_i32(text: &str) -> (n: Option<i32>)
    ensures
        match n {
            Some(n) => integer_value(trimmed(text@)) == Some(n as int),
            None => match integer_value(trimmed(text@)) {
                Some(v) => v < i32::MIN || v > i32::MAX,
                None => true,
            },
        },
{
    let all = chars_of(text);
    let chars = trim_chars(all.as_slice());
    let ghost s = trimmed(text@);
    assert(s.skip(0) =~= s);
    if chars.len() > 0 && chars[0] == '-' {
        assert(s.skip(1) =~= s.drop_first());
        return match parse_digits(chars.as_slice(), 1, 0x8000_0000) {
            Some(n) => Some((0 - n as i64) as i32),
            None => None,
        };
    }
    let from: usize = if chars.len() > 0 && chars[0] == '+' { 1 } else { 0 };
    assert(from == 1 ==> s.skip(1) =~= s.drop_first());
    match parse_digits(chars.as_slice(), from, 0x7fff_ffff) {
        Some(n) => Some(n as i32),
        None => None,
    }
}

/// A letter of the basic alphabet in lower case; any other character as it is.
pub open spec fn lower_char(c: char) -> char {
    if 65 <= c as int <= 90 { (c as int + 32) as char } else { c }
}

/// A text with the basic alphabet in lower case.
pub open spec fn lowered(s: Seq<char>) -> Seq<char> {
    Seq::new(s.len(), |i: int| lower_char(s[i]))
}

/// A character in lower case, where it belongs to the basic alphabet.
pub fn lower(c: char) -> (l: char)
    ensures
        l == lower_char(c),
{
    let n: u32 = c as u32;
    if 65 <= n && n <= 90 {
        (n as u8 + 32) as char
    } else {
        c
    }
}

/// A copy with the basic alphabet in lower case.
pub fn lower_text(text: &str) -> (s: String)
    ensures
        s@ == lowered(text@),
{
    let chars = chars_of(text);
    let mut s = String::new();
    let mut i: usize = 0;
    while i < chars.len()
        invariant
            i <= chars@.len(),
            chars@ == text@,
            s@ == lowered(text@).take(i as int),
        decreases chars@.len() - i,
    {
        s.push(lower(chars[i]));
        i = i + 1;
        assert(s@ =~= lowered(text@).take(i as int));
    }
    assert(s@ =~= lowered(text@));
    s
}

/// Whether `s` begins with `start`.
pub open spec fn begins_with(s: Seq<char>, start: Seq<char>) -> bool {
    s.len() >= start.len() && s.take(start.len() as int) == start
}

/// Whether `s` begins with `start`.
pub fn starts_with(s: &str, start: &str) -> (b: bool)
    ensures
        b == begins_with(s@, start@),
{
    let n: usize = start.unicode_len();
    if s.unicode_len() < n {
        return false;
    }
    let mut i: usize = 0;
    while i < n
        invariant
            i <= n,
            n == start@.len(),
            n <= s@.len(),
            forall|k: int| 0 <= k < i ==> s@[k] == start@[k],
        decreases n - i,
    {
        if s.get_char(i) != start.get_char(i) {
            assert(s@.take(n as int)[i as int] != start@[i as int]);
            return false;
        }
        i = i + 1;
    }
    assert(s@.take(n as int) =~= start@);
    true
}

/// The parts of a text between a character.
pub open spec fn parts(s: Seq<char>, sep: char) -> Seq<Seq<char>>
    decreases s.len(),
{
    if s.len() == 0 {
        seq![Seq::empty()]
    } else {
        let before = parts(s.drop_last(), sep);
        if s.last() == sep {
            before.push(Seq::empty())
        } else {
            before.update(before.len() - 1, before.last().push(s.last()))
        }
    }
}

/// The texts of a list.
pub open spec fn texts_view(v: Seq<String>) -> Seq<Seq<char>> {
    Seq::new(v.len(), |i: int| v[i]@)
}

/// The parts of a text between a character.
pub fn split(s: &str, sep: char) -> (v: Vec<String>)
    ensures
        texts_view(v@) == parts(s@, sep),
        v@.len() > 0,
{
    let chars = chars_of(s);
    let n: usize = chars.len();
    let mut v: Vec<String> = Vec::new();
    v.push(String::new());
    let mut i: usize = 0;
    assert(texts_view(v@) =~= parts(s@.take(0), sep));
    while i < n
        invariant
            i <= n == chars@.len(),
            chars@ == s@,
            v@.len() > 0,
            texts_view(v@) == parts(s@.take(i as int), sep),
        decreases n - i,
    {
        let ghost before = v@;
        let c = chars[i];
        proof {
            assert(s@.take(i as int + 1).drop_last() =~= s@.take(i as int));
            assert(s@.take(i as int + 1).last() == c);
            assert(texts_view(before).last() == before.last()@);
        }
        if c == sep {
            v.push(String::new());
            assert(texts_view(v@) =~= texts_view(before).push(Seq::empty()));
        } else {
            let m: usize = v.len();
            v[m - 1].push(c);
            assert(texts_view(v@) =~= texts_view(before).update(
                before.len() - 1,
                before.last()@.push(c),
            ));
        }
        i = i + 1;
    }
    assert(s@.take(i as int) =~= s@);
    v
}

/// A number in base ten reads back as itself, and has no leading zero.
pub proof fn a_number_reads_back(n: nat)
    ensures
        digits_value(decimal(n)) == Some(n as int),
        decimal(n).len() > 0,
        48 <= decimal(n)[0] as int <= 57,
        n > 0 ==> decimal(n)[0] != '0',
    decreases n,
{
    if n >= 10 {
        a_number_reads_back(n / 10);
        assert(decimal(n).drop_last() =~= decimal(n / 10));
        assert(decimal(n)[0] == decimal(n / 10)[0]);
    }
}

/// A signed number in base ten reads back as itself.
pub proof fn a_signed_number_reads_back(n: int)
    ensures
        integer_value(signed(n)) == Some(n),
{
    if n < 0 {
        a_number_reads_back((-n) as nat);
        assert(signed(n).drop_first() =~= decimal((-n) as nat));
    } else {
        a_number_reads_back(n as nat);
    }
}

proof fn lemma_zeros(n: nat, d: nat)
    requires
        d < 10,
    ensures
        digits_value(zeros(n).push(digit(d))) == Some(d as int),
    decreases n,
{
    let s = zeros(n).push(digit(d));
    assert(s.drop_last() =~= zeros(n));
    if n > 0 {
        lemma_zeros((n - 1) as nat, 0);
        assert(zeros(n) =~= zeros((n - 1) as nat).push(digit(0)));
    }
}

/// A padded number reads back as itself, and is as wide as asked, or as wide
/// as the number where that is wider.
pub proof fn a_padded_number_reads_back(n: nat, width: nat)
    ensures
        digits_value(padded(n, width)) == Some(n as int),
        padded(n, width).len() == if decimal(n).len() > width {
            decimal(n).len()
        } else if width < 1 {
            1
        } else {
            width
        },
    decreases width,
{
    a_number_reads_back(n);
    if width <= 1 {
    } else if n < 10 {
        lemma_zeros((width - 1) as nat, n);
    } else {
        a_padded_number_reads_back(n / 10, (width - 1) as nat);
        assert(padded(n, width).drop_last() =~= padded(n / 10, (width - 1) as nat));
    }
}

/// Trimming takes white space from the ends and nothing else.
pub proof fn trimming_takes_only_white_space(s: Seq<char>) -> (r: (int, int))
    ensures
        0 <= r.0 <= r.1 <= s.len(),
        trimmed(s) == s.subrange(r.0, r.1),
        forall|i: int| 0 <= i < r.0 || r.1 <= i < s.len() ==> is_space(#[trigger] s[i]),
        trimmed(s).len() > 0 ==> !is_space(trimmed(s)[0]) && !is_space(trimmed(s).last()),
    decreases s.len(),
{
    if s.len() == 0 {
        assert(s.subrange(0, 0) =~= s);
        (0, 0)
    } else if is_space(s[0]) {
        let rest = s.drop_first();
        let (a, b) = trimming_takes_only_white_space(rest);
        assert(rest.subrange(a, b) =~= s.subrange(a + 1, b + 1));
        assert forall|i: int| 0 <= i < a + 1 || b + 1 <= i < s.len() implies is_space(
            #[trigger] s[i],
        ) by {
            if i > 0 {
                assert(rest[i - 1] == s[i]);
            }
        }
        (a + 1, b + 1)
    } else if is_space(s.last()) {
        let rest = s.drop_last();
        let (a, b) = trimming_takes_only_white_space(rest);
        assert(rest.subrange(a, b) =~= s.subrange(a, b));
        assert forall|i: int| 0 <= i < a || b <= i < s.len() implies is_space(#[trigger] s[i]) by {
            if i < s.len() - 1 {
                assert(rest[i] == s[i]);
            }
        }
        (a, b)
    } else {
        assert(s.subrange(0, s.len() as int) =~= s);
        (0, s.len() as int)
    }
}

/// Texts with a character between them.
pub open spec fn rejoined(v: Seq<Seq<char>>, sep: char) -> Seq<char>
    decreases v.len(),
{
    if v.len() == 0 {
        Seq::empty()
    } else if v.len() == 1 {
        v[0]
    } else {
        rejoined(v.drop_last(), sep).push(sep) + v.last()
    }
}

/// The parts of a text make up the text, and none holds what is between them.
pub proof fn parts_make_up_the_text(s: Seq<char>, sep: char)
    ensures
        parts(s, sep).len() > 0,
        rejoined(parts(s, sep), sep) == s,
        !parts(s, sep).last().contains(sep),
    decreases s.len(),
{
    let all = parts(s, sep);
    if s.len() == 0 {
        assert(rejoined(all, sep) =~= s);
    } else {
        let before = parts(s.drop_last(), sep);
        parts_make_up_the_text(s.drop_last(), sep);
        if s.last() == sep {
            assert(all.drop_last() =~= before);
            assert(rejoined(all, sep) =~= s.drop_last().push(sep));
            assert(s =~= s.drop_last().push(sep));
        } else {
            assert(all.drop_last() =~= before.drop_last());
            assert(all.last() =~= before.last().push(s.last()));
            assert(rejoined(all, sep) =~= rejoined(before, sep).push(s.last()));
            assert(s =~= s.drop_last().push(s.last()));
            let last = all.last();
            if last.contains(sep) {
                let k = choose|k: int| 0 <= k < last.len() && last[k] == sep;
                assert(before.last()[k] == sep);
            }
        }
    }
}

} // verus!
