//! A plugin as it is named on the command line.
use vstd::prelude::*;
use vstd::string::*;

use crate::pack::error::PackError;
use crate::text::begins_with;
use crate::text::chars_of;
use crate::text::join;
use crate::text::starts_with;
use crate::text::text_of;
use crate::text::trim_chars;
use crate::text::trimmed;
use crate::tui::preview::holds;
use crate::tui::preview::text_holds;

verus! {

/// Where a plugin comes from, and what it is called.
#[derive(Debug, PartialEq, Eq)]
pub struct Spec {
    pub url: String,
    pub name: String,
}

/// A text without the slashes at its end.
pub open spec fn unslashed(s: Seq<char>) -> Seq<char>
    decreases s.len(),
{
    if s.len() > 0 && s.last() == '/' {
        unslashed(s.drop_last())
    } else {
        s
    }
}

/// How often a character occurs.
pub open spec fn occurrences(s: Seq<char>, c: char) -> int
    decreases s.len(),
{
    if s.len() == 0 {
        0
    } else {
        occurrences(s.drop_last(), c) + if s.last() == c {
            1int
        } else {
            0
        }
    }
}

/// Whether a name is taken as it is written: a path, or an address.
pub open spec fn is_verbatim(s: Seq<char>) -> bool {
    begins_with(s, "/"@) || begins_with(s, "."@) || holds(s, "://"@) || begins_with(s, "git@"@)
}

/// The address of a plugin. `user/repo` is short for one place, and a host may
/// be left without its scheme.
pub open spec fn address(s: Seq<char>) -> Option<Seq<char>> {
    if is_verbatim(s) {
        Some(s)
    } else if occurrences(s, '/') == 1 {
        Some("https://github.com/"@ + s)
    } else if occurrences(s, '.') > 0 && occurrences(s, '/') > 0 {
        Some("https://"@ + s)
    } else {
        None
    }
}

/// What follows the last slash.
pub open spec fn tail_of(s: Seq<char>) -> Seq<char>
    decreases s.len(),
{
    if s.len() == 0 || s.last() == '/' {
        Seq::empty()
    } else {
        tail_of(s.drop_last()).push(s.last())
    }
}

/// A text without the endings `.git`.
pub open spec fn bare(s: Seq<char>) -> Seq<char>
    decreases s.len(),
{
    let n = s.len();
    if n >= 4 && s[n - 4] == '.' && s[n - 3] == 'g' && s[n - 2] == 'i' && s[n - 1] == 't' {
        bare(s.take(n - 4))
    } else {
        s
    }
}

/// What is written on the command line, as it is read.
pub open spec fn cleaned(s: Seq<char>) -> Seq<char> {
    unslashed(trimmed(s))
}

/// Characters without the slashes at their end.
fn unslash(chars: &Vec<char>) -> (v: Vec<char>)
    ensures
        v@ == unslashed(chars@),
{
    let mut n: usize = chars.len();
    assert(chars@.take(n as int) =~= chars@);
    while n > 0 && chars[n - 1] == '/'
        invariant
            n <= chars@.len(),
            unslashed(chars@.take(n as int)) == unslashed(chars@),
        decreases n,
    {
        assert(chars@.take(n as int).drop_last() =~= chars@.take(n - 1));
        n = n - 1;
    }
    let mut v: Vec<char> = Vec::new();
    let mut i: usize = 0;
    while i < n
        invariant
            i <= n <= chars@.len(),
            v@ =~= chars@.take(i as int),
        decreases n - i,
    {
        v.push(chars[i]);
        i = i + 1;
    }
    v
}

fn count(chars: &Vec<char>, c: char) -> (k: usize)
    ensures
        k == occurrences(chars@, c),
{
    let n: usize = chars.len();
    let mut k: usize = 0;
    let mut i: usize = 0;
    while i < n
        invariant
            i <= n == chars@.len(),
            k <= i,
            k == occurrences(chars@.take(i as int), c),
        decreases n - i,
    {
        assert(chars@.take(i as int + 1).drop_last() =~= chars@.take(i as int));
        if chars[i] == c {
            k = k + 1;
        }
        i = i + 1;
    }
    assert(chars@.take(i as int) =~= chars@);
    k
}

fn last_part(chars: &Vec<char>) -> (v: Vec<char>)
    ensures
        v@ == tail_of(chars@),
{
    let n: usize = chars.len();
    let mut v: Vec<char> = Vec::new();
    let mut i: usize = 0;
    assert(v@ =~= tail_of(chars@.take(0)));
    while i < n
        invariant
            i <= n == chars@.len(),
            v@ == tail_of(chars@.take(i as int)),
        decreases n - i,
    {
        assert(chars@.take(i as int + 1).drop_last() =~= chars@.take(i as int));
        if chars[i] == '/' {
            v = Vec::new();
            assert(v@ =~= Seq::<char>::empty());
        } else {
            v.push(chars[i]);
        }
        i = i + 1;
    }
    assert(chars@.take(i as int) =~= chars@);
    v
}

fn strip_git(chars: &Vec<char>) -> (v: Vec<char>)
    ensures
        v@ == bare(chars@),
{
    let mut n: usize = chars.len();
    assert(chars@.take(n as int) =~= chars@);
    while n >= 4 && chars[n - 4] == '.' && chars[n - 3] == 'g' && chars[n - 2] == 'i' && chars[n
        - 1] == 't'
        invariant
            n <= chars@.len(),
            bare(chars@.take(n as int)) == bare(chars@),
        decreases n,
    {
        assert(chars@.take(n as int).take(n - 4) =~= chars@.take(n - 4));
        n = n - 4;
    }
    let mut v: Vec<char> = Vec::new();
    let mut i: usize = 0;
    while i < n
        invariant
            i <= n <= chars@.len(),
            v@ =~= chars@.take(i as int),
        decreases n - i,
    {
        v.push(chars[i]);
        i = i + 1;
    }
    assert(bare(chars@.take(n as int)) == chars@.take(n as int));
    v
}

impl Spec {
    /// Reads a plugin: `user/repo`, `host/user/repo`, an address or a path.
    pub fn parse(spec: &str) -> (r: Result<Self, PackError>)
        ensures
            ({
                let s = cleaned(spec@);
                match r {
                    Ok(p) => {
                        &&& s.len() > 0
                        &&& address(s) == Some(p.url@)
                        &&& p.name@ == bare(tail_of(p.url@))
                        &&& p.name@.len() > 0
                    },
                    Err(PackError::Unnamed) => s.len() == 0,
                    Err(PackError::NotAPlugin(t)) => s.len() > 0 && address(s) is None && t@ == s,
                    Err(PackError::Nameless(t)) => s.len() > 0 && address(s) is Some && bare(
                        tail_of(address(s)->Some_0),
                    ).len() == 0 && t@ == s,
                    Err(_) => false,
                }
            }),
    {
        let all = chars_of(spec);
        let kept = trim_chars(all.as_slice());
        let chars = unslash(&kept);
        if chars.len() == 0 {
            return Err(PackError::Unnamed);
        }
        let text = text_of(chars.as_slice());
        let s = text.as_str();
        let verbatim = starts_with(s, "/") || starts_with(s, ".") || text_holds(s, "://")
            || starts_with(s, "git@");
        let url = if verbatim {
            s.to_owned()
        } else if count(&chars, '/') == 1 {
            join("https://github.com/", s)
        } else if count(&chars, '.') > 0 && count(&chars, '/') > 0 {
            join("https://", s)
        } else {
            return Err(PackError::NotAPlugin(text));
        };
        let letters = chars_of(url.as_str());
        let part = last_part(&letters);
        let stripped = strip_git(&part);
        if stripped.len() == 0 {
            return Err(PackError::Nameless(text));
        }
        let name = text_of(stripped.as_slice());
        Ok(Spec { url, name })
    }
}

proof fn lemma_tail_has_no_slash(s: Seq<char>)
    ensures
        forall|i: int| 0 <= i < tail_of(s).len() ==> #[trigger] tail_of(s)[i] != '/',
    decreases s.len(),
{
    if s.len() > 0 && s.last() != '/' {
        lemma_tail_has_no_slash(s.drop_last());
        let before = tail_of(s.drop_last());
        assert forall|i: int| 0 <= i < tail_of(s).len() implies #[trigger] tail_of(s)[i]
            != '/' by {
            if i < before.len() {
                assert(tail_of(s)[i] == before[i]);
            }
        }
    }
}

proof fn lemma_bare_is_a_start(s: Seq<char>)
    ensures
        bare(s).len() <= s.len(),
        forall|i: int| 0 <= i < bare(s).len() ==> #[trigger] bare(s)[i] == s[i],
    decreases s.len(),
{
    let n = s.len();
    if n >= 4 && s[n - 4] == '.' && s[n - 3] == 'g' && s[n - 2] == 'i' && s[n - 1] == 't' {
        lemma_bare_is_a_start(s.take(n - 4));
    }
}

/// The name of a plugin holds no slash, so it is one directory.
pub proof fn a_name_holds_no_slash(url: Seq<char>)
    ensures
        forall|i: int|
            0 <= i < bare(tail_of(url)).len() ==> #[trigger] bare(tail_of(url))[i] != '/',
{
    lemma_tail_has_no_slash(url);
    lemma_bare_is_a_start(tail_of(url));
}

/// What is taken off the end is slashes, and all of them.
pub proof fn only_slashes_are_taken_off(s: Seq<char>) -> (n: int)
    ensures
        0 <= n <= s.len(),
        unslashed(s) == s.take(n),
        forall|i: int| n <= i < s.len() ==> #[trigger] s[i] == '/',
        n > 0 ==> s[n - 1] != '/',
    decreases s.len(),
{
    if s.len() > 0 && s.last() == '/' {
        let n = only_slashes_are_taken_off(s.drop_last());
        assert(s.drop_last().take(n) =~= s.take(n));
        assert forall|i: int| n <= i < s.len() implies #[trigger] s[i] == '/' by {
            if i < s.len() - 1 {
                assert(s.drop_last()[i] == '/');
            }
        }
        n
    } else {
        assert(s.take(s.len() as int) =~= s);
        s.len() as int
    }
}

/// Occurrences add up, and there are none exactly where the character is not.
pub proof fn occurrences_add_up(a: Seq<char>, b: Seq<char>, c: char)
    ensures
        occurrences(a + b, c) == occurrences(a, c) + occurrences(b, c),
        occurrences(a, c) >= 0,
        occurrences(b, c) >= 0,
        occurrences(b, c) == 0 <==> !b.contains(c),
        occurrences(seq![c], c) == 1,
    decreases a.len(), b.len(),
{
    reveal_with_fuel(occurrences, 2);
    if b.len() == 0 {
        assert(a + b =~= a);
        if a.len() > 0 {
            occurrences_add_up(a.drop_last(), b, c);
        }
    } else {
        occurrences_add_up(a, b.drop_last(), c);
        assert((a + b).drop_last() =~= a + b.drop_last());
        if b.contains(c) {
            let i = choose|i: int| 0 <= i < b.len() && b[i] == c;
            if i < b.len() - 1 {
                assert(b.drop_last()[i] == c);
            }
        } else {
            assert(b[b.len() - 1] != c);
            assert(!b.drop_last().contains(c)) by {
                if b.drop_last().contains(c) {
                    let i = choose|i: int| 0 <= i < b.drop_last().len() && b.drop_last()[i] == c;
                    assert(b[i] == c);
                }
            }
        }
    }
}

/// The end of an address is what follows its last slash.
pub proof fn a_tail_follows_the_last_slash(s: Seq<char>)
    ensures
        tail_of(s).len() <= s.len(),
        s.skip(s.len() - tail_of(s).len()) == tail_of(s),
        !tail_of(s).contains('/'),
        tail_of(s).len() < s.len() ==> s[s.len() - tail_of(s).len() - 1] == '/',
    decreases s.len(),
{
    lemma_tail_has_no_slash(s);
    if s.len() > 0 && s.last() != '/' {
        a_tail_follows_the_last_slash(s.drop_last());
        let t = tail_of(s.drop_last());
        assert(s.skip(s.len() - tail_of(s).len()) =~= tail_of(s)) by {
            assert forall|i: int| 0 <= i < tail_of(s).len() implies s[s.len() - tail_of(s).len()
                + i] == #[trigger] tail_of(s)[i] by {
                if i < t.len() {
                    assert(s.drop_last().skip(s.len() - 1 - t.len())[i] == t[i]);
                }
            }
        }
    } else {
        assert(s.skip(s.len() as int) =~= Seq::<char>::empty());
    }
}

/// What is taken off a name is the ending `.git`, as often as it stands there.
pub proof fn only_endings_are_taken_off(s: Seq<char>)
    ensures
        bare(s).len() <= s.len(),
        bare(s) == s.take(bare(s).len() as int),
        (s.len() - bare(s).len()) % 4 == 0,
        !(bare(s).len() >= 4 && bare(s).skip(bare(s).len() - 4) == seq!['.', 'g', 'i', 't']),
        bare(s).len() < s.len() ==> s.skip(s.len() - 4) == seq!['.', 'g', 'i', 't'],
    decreases s.len(),
{
    let n = s.len();
    if n >= 4 && s[n - 4] == '.' && s[n - 3] == 'g' && s[n - 2] == 'i' && s[n - 1] == 't' {
        only_endings_are_taken_off(s.take(n - 4));
        assert(s.take(n - 4).take(bare(s).len() as int) =~= s.take(bare(s).len() as int));
        assert(s.skip(n - 4) =~= seq!['.', 'g', 'i', 't']);
    } else {
        assert(s.take(n as int) =~= s);
        if n >= 4 && s.skip(n - 4) == seq!['.', 'g', 'i', 't'] {
            assert(s.skip(n - 4)[0] == s[n - 4]);
            assert(s.skip(n - 4)[1] == s[n - 3]);
            assert(s.skip(n - 4)[2] == s[n - 2]);
            assert(s.skip(n - 4)[3] == s[n - 1]);
        }
    }
}

/// A user and a repository are short for one place; a host with a path is
/// reached over https; a path or an address is taken as it is; and anything
/// else is no plugin.
pub proof fn an_address_is_made_of_what_is_written(s: Seq<char>)
    requires
        s.len() > 0,
    ensures
        s[0] == '/' || s[0] == '.' ==> address(s) == Some(s),
        !is_verbatim(s) && occurrences(s, '/') == 1 ==> address(s) == Some(
            "https://github.com/"@ + s,
        ),
        !is_verbatim(s) && occurrences(s, '/') > 1 && s.contains('.') ==> address(s) == Some(
            "https://"@ + s,
        ),
        !s.contains('/') && s[0] != '.' && !begins_with(s, "git@"@) && !holds(s, "://"@)
            ==> address(s) is None,
        !is_verbatim(s) && occurrences(s, '/') != 1 && !s.contains('.') ==> address(s) is None,
{
    reveal_strlit("/");
    reveal_strlit(".");
    assert("/"@.len() == 1 && "/"@[0] == '/');
    assert("."@.len() == 1 && "."@[0] == '.');
    if s[0] == '/' {
        assert(s.take(1) =~= "/"@);
    }
    if s[0] == '.' {
        assert(s.take(1) =~= "."@);
    }
    if begins_with(s, "/"@) {
        assert(s.take(1)[0] == '/');
        assert(s[0] == '/');
    }
    if begins_with(s, "."@) {
        assert(s.take(1)[0] == '.');
        assert(s[0] == '.');
    }
    occurrences_add_up(Seq::empty(), s, '/');
    occurrences_add_up(Seq::empty(), s, '.');
    assert(s.contains(s[0]));
}

} // verus!
