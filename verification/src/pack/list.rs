//! What is installed, as it is listed.
use vstd::prelude::*;
use vstd::relations::total_ordering;
use vstd::seq_lib::lemma_sorted_unique;
use vstd::string::*;

use crate::text::comes_before;
use crate::text::lemma_precedes_total;
use crate::text::lemma_precedes_transitive;
use crate::text::precedes;
use crate::text::same_text;
use crate::text::texts_view;

verus! {

/// Whether texts are in order.
pub open spec fn in_order(v: Seq<Seq<char>>) -> bool {
    forall|i: int, j: int| 0 <= i < j < v.len() ==> !precedes(#[trigger] v[j], #[trigger] v[i])
}

proof fn lemma_not_before(a: Seq<char>, b: Seq<char>, c: Seq<char>)
    requires
        !precedes(b, a),
        !precedes(c, b),
    ensures
        !precedes(c, a),
{
    lemma_precedes_total(a, b);
    lemma_precedes_total(b, c);
    lemma_precedes_total(a, c);
    if precedes(c, a) {
        if a != b && b != c {
            lemma_precedes_transitive(a, b, c);
        }
    }
}

/// Whether a text comes before another, or is the same.
pub open spec fn text_order() -> spec_fn(Seq<char>, Seq<char>) -> bool {
    |a: Seq<char>, b: Seq<char>| !precedes(b, a)
}

/// Texts in order: the same ones, as often as before.
pub open spec fn sorted_texts(v: Seq<Seq<char>>) -> Seq<Seq<char>> {
    v.sort_by(text_order())
}

proof fn lemma_text_order()
    ensures
        total_ordering(text_order()),
{
    let leq = text_order();
    assert forall|a: Seq<char>| #[trigger] leq(a, a) by {
        lemma_precedes_total(a, a);
    }
    assert forall|a: Seq<char>, b: Seq<char>| #[trigger] leq(a, b) && #[trigger] leq(
        b,
        a,
    ) implies a == b by {
        lemma_precedes_total(a, b);
    }
    assert forall|a: Seq<char>, b: Seq<char>, c: Seq<char>| #[trigger] leq(a, b) && #[trigger] leq(
        b,
        c,
    ) implies leq(a, c) by {
        lemma_not_before(a, b, c);
    }
    assert forall|a: Seq<char>, b: Seq<char>| #[trigger] leq(a, b) || #[trigger] leq(b, a) by {
        lemma_precedes_total(a, b);
    }
}

/// There is one order of texts.
pub proof fn lemma_in_order_is_sorted(v: Seq<Seq<char>>, w: Seq<Seq<char>>)
    requires
        in_order(w),
        w.to_multiset() == v.to_multiset(),
    ensures
        w == sorted_texts(v),
{
    let leq = text_order();
    lemma_text_order();
    v.lemma_sort_by_ensures(leq);
    assert forall|i: int, j: int| 0 <= i < j < w.len() implies #[trigger] leq(w[i], w[j]) by {}
    lemma_sorted_unique(w, v.sort_by(leq), leq);
}

/// Texts in order: the same ones, as often as before.
pub fn sort_names(names: Vec<String>) -> (sorted: Vec<String>)
    ensures
        texts_view(sorted@) == sorted_texts(texts_view(names@)),
        in_order(texts_view(sorted@)),
        texts_view(sorted@).to_multiset() == texts_view(names@).to_multiset(),
        sorted@.len() == names@.len(),
{
    let ghost all = texts_view(names@);
    let mut names = names;
    let mut out: Vec<String> = Vec::new();
    let ghost mut left = all;
    assert(texts_view(out@) =~= Seq::<Seq<char>>::empty());
    proof {
        all.to_multiset_ensures();
        Seq::<Seq<char>>::empty().to_multiset_ensures();
        assert(texts_view(out@).to_multiset().add(left.to_multiset()) =~= all.to_multiset());
    }
    while names.len() > 0
        invariant
            left == texts_view(names@),
            in_order(texts_view(out@)),
            texts_view(out@).to_multiset().add(left.to_multiset()) == all.to_multiset(),
            out@.len() + names@.len() == all.len(),
        decreases names@.len(),
    {
        let ghost before = names@;
        let n: usize = names.len();
        let name = names.remove(n - 1);
        let ghost t = name@;
        proof {
            assert(left.last() == t);
            assert(texts_view(names@) =~= left.drop_last());
            assert(left =~= left.drop_last().push(t));
            left.drop_last().to_multiset_ensures();
        }
        let ghost sorted = texts_view(out@);
        let m: usize = out.len();
        let mut at: usize = 0;
        while at < m && !comes_before(name.as_str(), out[at].as_str())
            invariant
                at <= m == out@.len(),
                sorted == texts_view(out@),
                t == name@,
                forall|k: int| 0 <= k < at ==> !precedes(t, #[trigger] sorted[k]),
            decreases m - at,
        {
            assert(sorted[at as int] == out@[at as int]@);
            at = at + 1;
        }
        let ghost old_out = out@;
        if at < m {
            assert(sorted[at as int] == out@[at as int]@);
        }
        out.insert(at, name);
        proof {
            let now = texts_view(out@);
            assert(now =~= sorted.insert(at as int, t));
            sorted.to_multiset_ensures();
            lemma_insert(sorted, at as int, t);
            assert(now.to_multiset() =~= sorted.to_multiset().insert(t));
            assert forall|i: int, j: int| 0 <= i < j < now.len() implies !precedes(
                #[trigger] now[j],
                #[trigger] now[i],
            ) by {
                if j < at {
                    assert(now[i] == sorted[i] && now[j] == sorted[j]);
                } else if j == at {
                    assert(now[i] == sorted[i]);
                } else if i > at {
                    assert(now[i] == sorted[i - 1] && now[j] == sorted[j - 1]);
                } else if i == at {
                    assert(now[j] == sorted[j - 1]);
                    lemma_precedes_total(t, sorted[at as int]);
                    if j - 1 > at {
                        assert(!precedes(sorted[j - 1], sorted[at as int]));
                        lemma_not_before(t, sorted[at as int], sorted[j - 1]);
                    }
                } else {
                    assert(now[i] == sorted[i] && now[j] == sorted[j - 1]);
                    if i < j - 1 {
                        assert(!precedes(sorted[j - 1], sorted[i]));
                    }
                }
            }
            assert(now.to_multiset().add(left.drop_last().to_multiset()) =~= all.to_multiset());
            left = left.drop_last();
        }
    }
    proof {
        assert(left =~= Seq::<Seq<char>>::empty());
        left.to_multiset_ensures();
        assert(texts_view(out@).to_multiset() =~= all.to_multiset());
        lemma_in_order_is_sorted(all, texts_view(out@));
    }
    out
}

proof fn lemma_insert(s: Seq<Seq<char>>, i: int, t: Seq<char>)
    requires
        0 <= i <= s.len(),
    ensures
        s.insert(i, t).to_multiset() == s.to_multiset().insert(t),
{
    s.to_multiset_ensures();
    let a = s.take(i);
    let b = s.skip(i);
    assert(s =~= a + b);
    assert(s.insert(i, t) =~= a.push(t) + b);
    vstd::seq_lib::lemma_multiset_commutative(a, b);
    vstd::seq_lib::lemma_multiset_commutative(a.push(t), b);
    a.to_multiset_ensures();
    assert(s.insert(i, t).to_multiset() =~= s.to_multiset().insert(t));
}

/// The first characters of a revision.
pub open spec fn short_of(rev: Seq<char>) -> Seq<char> {
    if rev.len() > 9 {
        rev.take(9)
    } else {
        rev
    }
}

/// The first nine characters of a revision.
pub fn short(rev: &str) -> (s: String)
    ensures
        s@ == short_of(rev@),
{
    let chars = crate::text::chars_of(rev);
    let n: usize = if chars.len() > 9 {
        9
    } else {
        chars.len()
    };
    let mut s = String::new();
    let mut i: usize = 0;
    while i < n
        invariant
            i <= n <= chars@.len(),
            s@ =~= chars@.take(i as int),
        decreases n - i,
    {
        s.push(chars[i]);
        i = i + 1;
    }
    assert(s@ =~= short_of(rev@));
    s
}

/// Whether a text is among others.
pub fn has_name(names: &Vec<String>, name: &str) -> (b: bool)
    ensures
        b == texts_view(names@).contains(name@),
{
    let ghost all = texts_view(names@);
    let n: usize = names.len();
    let mut i: usize = 0;
    while i < n
        invariant
            i <= n == names@.len(),
            all == texts_view(names@),
            forall|k: int| 0 <= k < i ==> #[trigger] all[k] != name@,
        decreases n - i,
    {
        assert(all[i as int] == names@[i as int]@);
        if same_text(names[i].as_str(), name) {
            return true;
        }
        i = i + 1;
    }
    false
}

/// A shortened revision is the start of it, nine characters at most.
pub proof fn a_short_revision_is_its_start(rev: Seq<char>)
    ensures
        short_of(rev) == rev.take(short_of(rev).len() as int),
        rev.len() >= 9 ==> short_of(rev).len() == 9,
        rev.len() < 9 ==> short_of(rev).len() == rev.len(),
{
    assert(rev.take(rev.len() as int) =~= rev);
}

/// Sorting keeps every text.
pub proof fn lemma_sorted_length(v: Seq<Seq<char>>)
    ensures
        sorted_texts(v).len() == v.len(),
        sorted_texts(v).to_multiset() == v.to_multiset(),
        in_order(sorted_texts(v)),
{
    lemma_text_order();
    v.lemma_sort_by_ensures(text_order());
    let w = sorted_texts(v);
    w.to_multiset_ensures();
    v.to_multiset_ensures();
    assert(w.len() == w.to_multiset().len());
    assert(v.len() == v.to_multiset().len());
    assert forall|i: int, j: int| 0 <= i < j < w.len() implies !precedes(
        #[trigger] w[j],
        #[trigger] w[i],
    ) by {
        assert((text_order())(w[i], w[j]));
    }
}

} // verus!
