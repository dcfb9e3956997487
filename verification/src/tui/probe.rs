//! What a terminal answers when it is asked what it can draw.
use vstd::prelude::*;
use vstd::string::*;

use crate::text::begins_with;
use crate::text::chars_of;
use crate::text::parts;
use crate::text::same_text;
use crate::text::split;
use crate::text::starts_with;
use crate::text::texts_view;
use crate::tui::preview::Protocol;
use crate::tui::preview::holds;
use crate::tui::preview::text_holds;

verus! {

/// Whether `needle` stands in `haystack` at `i`.
pub open spec fn stands_at(haystack: Seq<u8>, needle: Seq<u8>, i: int) -> bool {
    &&& 0 <= i
    &&& i + needle.len() <= haystack.len()
    &&& forall|k: int| 0 <= k < needle.len() ==> haystack[i + k] == #[trigger] needle[k]
}

/// The first place where `needle` stands in `haystack`.
pub fn find(haystack: &[u8], needle: &[u8]) -> (r: Option<usize>)
    requires
        needle@.len() > 0,
    ensures
        match r {
            Some(i) => stands_at(haystack@, needle@, i as int) && forall|j: int|
                0 <= j < i ==> !#[trigger] stands_at(haystack@, needle@, j),
            None => forall|j: int| !#[trigger] stands_at(haystack@, needle@, j),
        },
{
    let n: usize = haystack.len();
    let m: usize = needle.len();
    let mut i: usize = 0;
    while i < n && m <= n - i
        invariant
            i <= n == haystack@.len(),
            m == needle@.len(),
            forall|j: int| 0 <= j < i ==> !#[trigger] stands_at(haystack@, needle@, j),
        decreases n - i,
    {
        let mut k: usize = 0;
        while k < m && haystack[i + k] == needle[k]
            invariant
                k <= m <= n - i,
                i < n == haystack@.len(),
                m == needle@.len(),
                forall|j: int| 0 <= j < k ==> haystack@[i + j] == #[trigger] needle@[j],
            decreases m - k,
        {
            k = k + 1;
        }
        if k == m {
            return Some(i);
        }
        assert(!stands_at(haystack@, needle@, i as int)) by {
            assert(haystack@[i + k] != needle@[k as int]);
        }
        i = i + 1;
    }
    None
}

/// Whether a reply is whole: the terminal's attributes come last, and end with
/// a `c`.
pub open spec fn is_whole(reply: Seq<u8>) -> bool {
    exists|i: int, j: int|
        #![trigger reply[i], reply[j]]
        0 <= i && i + 2 < reply.len() && reply[i] == 27 && reply[i + 1] == 91 && reply[i + 2] == 63
            && i <= j < reply.len() && reply[j] == 99
}

/// Whether a reply is whole.
pub fn reply_is_whole(reply: &[u8]) -> (b: bool)
    ensures
        b == is_whole(reply@),
{
    let mark: [u8; 3] = [27, 91, 63];
    let start = match find(reply, mark.as_slice()) {
        Some(i) => i,
        None => {
            proof {
                if is_whole(reply@) {
                    let (i, j) = choose|i: int, j: int|
                        #![trigger reply@[i], reply@[j]]
                        0 <= i && i + 2 < reply@.len() && reply@[i] == 27 && reply@[i + 1] == 91
                            && reply@[i + 2] == 63 && i <= j < reply@.len() && reply@[j] == 99;
                    assert(stands_at(reply@, mark@, i));
                }
            }
            return false;
        },
    };
    proof {
        assert(mark@[0] == 27 && mark@[1] == 91 && mark@[2] == 63);
        assert(reply@[start + 0] == 27 && reply@[start + 1] == 91 && reply@[start + 2] == 63);
    }
    let n: usize = reply.len();
    let mut j: usize = start;
    while j < n
        invariant
            start <= j <= n == reply@.len(),
            start + 2 < n,
            reply@[start as int] == 27 && reply@[start + 1] == 91 && reply@[start + 2] == 63,
            forall|k: int| start <= k < j ==> reply@[k] != 99,
        decreases n - j,
    {
        if reply[j] == 99 {
            assert(reply@[start as int] == 27 && reply@[j as int] == 99);
            return true;
        }
        j = j + 1;
    }
    proof {
        if is_whole(reply@) {
            let (a, b) = choose|i: int, j: int|
                #![trigger reply@[i], reply@[j]]
                0 <= i && i + 2 < reply@.len() && reply@[i] == 27 && reply@[i + 1] == 91
                    && reply@[i + 2] == 63 && i <= j < reply@.len() && reply@[j] == 99;
            assert(stands_at(reply@, mark@, a));
            assert(start <= a);
        }
    }
    false
}

/// The first part that begins with `start`.
pub open spec fn first_with(v: Seq<Seq<char>>, start: Seq<char>) -> Option<Seq<char>>
    decreases v.len(),
{
    if v.len() == 0 {
        None
    } else if begins_with(v[0], start) {
        Some(v[0])
    } else {
        first_with(v.skip(1), start)
    }
}

/// Text without the marks that open a list of attributes.
pub open spec fn opened(s: Seq<char>) -> Seq<char>
    decreases s.len(),
{
    if s.len() >= 2 && s[0] == '[' && s[1] == '?' {
        opened(s.skip(2))
    } else {
        s
    }
}

/// Text without the marks that close a list of attributes.
pub open spec fn closed_off(s: Seq<char>) -> Seq<char>
    decreases s.len(),
{
    if s.len() > 0 && s.last() == 'c' {
        closed_off(s.drop_last())
    } else {
        s
    }
}

/// What a reply says that the terminal can draw: kitty where it accepted the
/// picture that it was sent, and sixel where the number four is among its
/// attributes.
pub open spec fn replied(reply: Seq<char>) -> Option<Protocol> {
    if holds(reply, "_Gi=31;OK"@) {
        Some(Protocol::Kitty)
    } else {
        match first_with(parts(reply, '\u{1b}'), "[?"@) {
            None => None,
            Some(a) => if parts(closed_off(opened(a)), ';').contains("4"@) {
                Some(Protocol::Sixel)
            } else {
                None
            },
        }
    }
}

fn strip(s: &str) -> (r: String)
    ensures
        r@ == closed_off(opened(s@)),
{
    let chars = chars_of(s);
    let n: usize = chars.len();
    let mut from: usize = 0;
    assert(s@.skip(0) =~= s@);
    while n - from >= 2 && chars[from] == '[' && chars[from + 1] == '?'
        invariant
            from <= n == chars@.len(),
            chars@ == s@,
            opened(s@.skip(from as int)) == opened(s@),
        decreases n - from,
    {
        proof {
            let here = s@.skip(from as int);
            assert(here[0] == chars@[from as int] && here[1] == chars@[from + 1]);
            assert(here.skip(2) =~= s@.skip(from + 2));
        }
        from = from + 2;
    }
    let ghost rest = s@.skip(from as int);
    assert(opened(rest) == rest) by {
        if rest.len() >= 2 {
            assert(rest[0] == chars@[from as int] && rest[1] == chars@[from + 1]);
        }
    }
    let mut to: usize = n;
    assert(s@.subrange(from as int, n as int) =~= rest);
    while to > from && chars[to - 1] == 'c'
        invariant
            from <= to <= n == chars@.len(),
            chars@ == s@,
            closed_off(s@.subrange(from as int, to as int)) == closed_off(rest),
        decreases to - from,
    {
        proof {
            let here = s@.subrange(from as int, to as int);
            assert(here.last() == chars@[to - 1]);
            assert(here.drop_last() =~= s@.subrange(from as int, to - 1));
        }
        to = to - 1;
    }
    let ghost end = s@.subrange(from as int, to as int);
    assert(closed_off(end) == end) by {
        if end.len() > 0 {
            assert(end.last() == chars@[to - 1]);
        }
    }
    let mut r = String::new();
    let mut i: usize = from;
    while i < to
        invariant
            from <= i <= to <= n == chars@.len(),
            chars@ == s@,
            r@ =~= s@.subrange(from as int, i as int),
        decreases to - i,
    {
        r.push(chars[i]);
        i = i + 1;
    }
    r
}

/// What a reply says that the terminal can draw.
pub fn protocol_from_reply(reply: &str) -> (p: Option<Protocol>)
    ensures
        p == replied(reply@),
{
    if text_holds(reply, "_Gi=31;OK") {
        return Some(Protocol::Kitty);
    }
    let pieces = split(reply, '\u{1b}');
    let ghost views = texts_view(pieces@);
    let n: usize = pieces.len();
    let mut i: usize = 0;
    assert(views.skip(0) =~= views);
    while i < n && !starts_with(pieces[i].as_str(), "[?")
        invariant
            i <= n == pieces@.len(),
            views == texts_view(pieces@),
            first_with(views.skip(i as int), "[?"@) == first_with(views, "[?"@),
        decreases n - i,
    {
        assert(views.skip(i as int)[0] == pieces@[i as int]@);
        assert(views.skip(i as int).skip(1) =~= views.skip(i + 1));
        i = i + 1;
    }
    if i == n {
        assert(views.skip(i as int).len() == 0);
        return None;
    }
    assert(views.skip(i as int)[0] == pieces@[i as int]@);
    let attributes = strip(pieces[i].as_str());
    let numbers = split(attributes.as_str(), ';');
    let ghost all = texts_view(numbers@);
    let m: usize = numbers.len();
    let mut k: usize = 0;
    while k < m
        invariant
            k <= m == numbers@.len(),
            all == texts_view(numbers@),
            replied(reply@) == (if all.contains("4"@) {
                Some(Protocol::Sixel)
            } else {
                None
            }),
            forall|j: int| 0 <= j < k ==> #[trigger] all[j] != "4"@,
        decreases m - k,
    {
        if same_text(numbers[k].as_str(), "4") {
            assert(all[k as int] == "4"@);
            assert(all.contains("4"@));
            return Some(Protocol::Sixel);
        }
        k = k + 1;
    }
    assert(!all.contains("4"@));
    None
}

/// The part that is found is the first that begins so.
pub proof fn the_first_such_part_is_found(v: Seq<Seq<char>>, start: Seq<char>, k: int)
    requires
        0 <= k < v.len(),
        begins_with(v[k], start),
        forall|j: int| 0 <= j < k ==> !begins_with(#[trigger] v[j], start),
    ensures
        first_with(v, start) == Some(v[k]),
    decreases k,
{
    if k > 0 {
        assert(!begins_with(v[0], start));
        let rest = v.skip(1);
        assert forall|j: int| 0 <= j < k - 1 implies !begins_with(#[trigger] rest[j], start) by {
            assert(!begins_with(v[j + 1], start));
        }
        the_first_such_part_is_found(rest, start, k - 1);
    }
}

proof fn lemma_escaped_parts(rest: Seq<char>)
    requires
        !rest.contains('\u{1b}'),
    ensures
        parts(seq!['\u{1b}'] + rest, '\u{1b}') == seq![Seq::<char>::empty(), rest],
    decreases rest.len(),
{
    let s = seq!['\u{1b}'] + rest;
    let before = parts(s.drop_last(), '\u{1b}');
    if rest.len() == 0 {
        assert(s.drop_last() =~= Seq::<char>::empty());
        assert(parts(Seq::<char>::empty(), '\u{1b}') =~= seq![Seq::<char>::empty()]);
        assert(parts(s, '\u{1b}') =~= before.push(Seq::empty()));
        assert(rest =~= Seq::<char>::empty());
        assert(parts(s, '\u{1b}') =~= seq![Seq::<char>::empty(), rest]);
    } else {
        let shorter = rest.drop_last();
        assert(!shorter.contains('\u{1b}')) by {
            if shorter.contains('\u{1b}') {
                let i = choose|i: int| 0 <= i < shorter.len() && shorter[i] == '\u{1b}';
                assert(rest[i] == '\u{1b}');
            }
        }
        lemma_escaped_parts(shorter);
        assert(s.drop_last() =~= seq!['\u{1b}'] + shorter);
        assert(s.last() == rest.last());
        assert(rest.contains(rest.last()));
        assert(before.last().push(s.last()) =~= rest);
        assert(parts(s, '\u{1b}') =~= seq![Seq::<char>::empty(), rest]);
    }
}

/// A terminal that lists its attributes draws sixels exactly where the number
/// four is among them.
pub proof fn the_attribute_four_means_sixel(attributes: Seq<char>)
    requires
        attributes.len() > 0,
        !attributes.contains('\u{1b}'),
        attributes[0] != '[',
        attributes.last() != 'c',
        !holds(seq!['\u{1b}', '[', '?'] + attributes + seq!['c'], "_Gi=31;OK"@),
    ensures
        replied(seq!['\u{1b}', '[', '?'] + attributes + seq!['c']) == (if parts(
            attributes,
            ';',
        ).contains("4"@) {
            Some(Protocol::Sixel)
        } else {
            None
        }),
{
    let reply = seq!['\u{1b}', '[', '?'] + attributes + seq!['c'];
    let rest = seq!['[', '?'] + attributes + seq!['c'];
    reveal_strlit("[?");
    assert("[?"@ =~= seq!['[', '?']);
    assert(reply =~= seq!['\u{1b}'] + rest);
    assert(!rest.contains('\u{1b}')) by {
        if rest.contains('\u{1b}') {
            let i = choose|i: int| 0 <= i < rest.len() && rest[i] == '\u{1b}';
            assert(2 <= i < 2 + attributes.len());
            assert(attributes[i - 2] == '\u{1b}');
        }
    }
    lemma_escaped_parts(rest);
    let all = parts(reply, '\u{1b}');
    assert(rest.take(2) =~= "[?"@);
    assert(begins_with(all[1], "[?"@));
    assert(!begins_with(all[0], "[?"@));
    the_first_such_part_is_found(all, "[?"@, 1);
    let bare = attributes + seq!['c'];
    assert(rest.skip(2) =~= bare);
    assert(opened(rest) == opened(bare));
    assert(bare[0] == attributes[0]);
    assert(opened(bare) == bare);
    assert(bare.drop_last() =~= attributes);
    assert(bare.last() == 'c');
    assert(closed_off(bare) == closed_off(attributes));
    assert(closed_off(attributes) == attributes);
}

/// A terminal that accepts the picture it is sent draws kitty pictures, whatever
/// else it says.
pub proof fn an_accepted_picture_means_kitty(before: Seq<char>, after: Seq<char>)
    ensures
        replied(before + "_Gi=31;OK"@ + after) == Some(Protocol::Kitty),
{
    let reply = before + "_Gi=31;OK"@ + after;
    let n = before.len() as int;
    assert(reply.skip(n).take("_Gi=31;OK"@.len() as int) =~= "_Gi=31;OK"@);
    assert(begins_with(reply.skip(n), "_Gi=31;OK"@));
}

/// The marks that open a list are all taken off, and nothing else is.
pub proof fn only_opening_marks_are_taken_off(s: Seq<char>) -> (n: int)
    ensures
        0 <= n,
        2 * n <= s.len(),
        opened(s) == s.skip(2 * n),
        forall|k: int|
            0 <= k < 2 * n ==> #[trigger] s[k] == (if k % 2 == 0 {
                '['
            } else {
                '?'
            }),
        !(opened(s).len() >= 2 && opened(s)[0] == '[' && opened(s)[1] == '?'),
    decreases s.len(),
{
    if s.len() >= 2 && s[0] == '[' && s[1] == '?' {
        let rest = s.skip(2);
        let n = only_opening_marks_are_taken_off(rest);
        assert(rest.skip(2 * n) =~= s.skip(2 * (n + 1)));
        assert forall|k: int| 0 <= k < 2 * (n + 1) implies #[trigger] s[k] == (if k % 2 == 0 {
            '['
        } else {
            '?'
        }) by {
            if k >= 2 {
                assert(rest[k - 2] == s[k]);
            }
        }
        n + 1
    } else {
        assert(s.skip(0) =~= s);
        0
    }
}

/// The marks that close a list are all taken off, and nothing else is.
pub proof fn only_closing_marks_are_taken_off(s: Seq<char>) -> (n: int)
    ensures
        0 <= n <= s.len(),
        closed_off(s) == s.take(n),
        forall|i: int| n <= i < s.len() ==> #[trigger] s[i] == 'c',
        n > 0 ==> s[n - 1] != 'c',
    decreases s.len(),
{
    if s.len() > 0 && s.last() == 'c' {
        let n = only_closing_marks_are_taken_off(s.drop_last());
        assert(s.drop_last().take(n) =~= s.take(n));
        assert forall|i: int| n <= i < s.len() implies #[trigger] s[i] == 'c' by {
            if i < s.len() - 1 {
                assert(s.drop_last()[i] == 'c');
            }
        }
        n
    } else {
        assert(s.take(s.len() as int) =~= s);
        s.len() as int
    }
}

/// A reply is whole once the attributes have come, with the letter that ends
/// them.
pub proof fn a_reply_with_its_attributes_is_whole(
    before: Seq<u8>,
    attributes: Seq<u8>,
    after: Seq<u8>,
)
    ensures
        is_whole(before + seq![27u8, 91, 63] + attributes + seq![99u8] + after),
{
    let reply = before + seq![27u8, 91, 63] + attributes + seq![99u8] + after;
    let i = before.len() as int;
    let j = i + 3 + attributes.len();
    assert(reply[i] == 27 && reply[i + 1] == 91 && reply[i + 2] == 63);
    assert(reply[j] == 99);
}

} // verus!
