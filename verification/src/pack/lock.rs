//! What the installed plugins are pinned to.
use vstd::prelude::*;
use vstd::string::*;

use crate::pack::list::in_order;
use crate::pack::list::short;
use crate::pack::list::short_of;
use crate::pack::list::sort_names;
use crate::pack::list::sorted_texts;
use crate::pack::paths::Kind;
use crate::text::join3;
use crate::text::lemma_precedes_total;
use crate::text::precedes;
use crate::text::same_text;
use crate::text::texts_view;

verus! {

/// An installed plugin, pinned.
#[derive(Debug, PartialEq, Eq)]
pub struct Pin {
    pub url: String,
    /// The exact revision.
    pub rev: String,
    pub kind: Kind,
}

/// The contents of a [`Pin`].
pub struct PinView {
    pub url: Seq<char>,
    pub rev: Seq<char>,
    pub kind: Kind,
}

impl View for Pin {
    type V = PinView;

    open spec fn view(&self) -> PinView {
        PinView { url: self.url@, rev: self.rev@, kind: self.kind }
    }
}

impl Clone for Pin {
    fn clone(&self) -> (p: Self)
        ensures
            p@ == self@,
    {
        Pin { url: self.url.clone(), rev: self.rev.clone(), kind: self.kind }
    }
}

/// A pinned plugin and its name.
#[derive(Debug, PartialEq, Eq)]
pub struct Pinned {
    pub name: String,
    pub pin: Pin,
}

/// The pins by name.
pub open spec fn pins_of(entries: Seq<Pinned>) -> Map<Seq<char>, PinView>
    decreases entries.len(),
{
    if entries.len() == 0 {
        Map::empty()
    } else {
        pins_of(entries.drop_last()).insert(entries.last().name@, entries.last().pin@)
    }
}

/// Whether no name occurs twice.
pub open spec fn distinct(entries: Seq<Pinned>) -> bool {
    forall|i: int, j: int|
        0 <= i < j < entries.len() ==> (#[trigger] entries[i]).name@ != (
        #[trigger] entries[j]).name@
}

/// The pins of all plugins.
#[derive(Debug)]
pub struct Lock {
    plugins: Vec<Pinned>,
}

impl View for Lock {
    type V = Map<Seq<char>, PinView>;

    closed spec fn view(&self) -> Map<Seq<char>, PinView> {
        pins_of(self.plugins@)
    }
}

proof fn lemma_pins(entries: Seq<Pinned>, name: Seq<char>)
    ensures
        pins_of(entries).contains_key(name) <==> exists|i: int|
            0 <= i < entries.len() && (#[trigger] entries[i]).name@ == name,
    decreases entries.len(),
{
    if entries.len() > 0 {
        let before = entries.drop_last();
        lemma_pins(before, name);
        if entries.last().name@ == name {
            assert(entries[entries.len() - 1].name@ == name);
        } else {
            if exists|i: int| 0 <= i < before.len() && (#[trigger] before[i]).name@ == name {
                let i = choose|i: int| 0 <= i < before.len() && (#[trigger] before[i]).name@
                    == name;
                assert(entries[i].name@ == name);
            }
            if exists|i: int| 0 <= i < entries.len() && (#[trigger] entries[i]).name@ == name {
                let i = choose|i: int| 0 <= i < entries.len() && (#[trigger] entries[i]).name@
                    == name;
                assert(before[i].name@ == name);
            }
        }
    }
}

proof fn lemma_pin_at(entries: Seq<Pinned>, i: int)
    requires
        distinct(entries),
        0 <= i < entries.len(),
    ensures
        pins_of(entries).contains_key(entries[i].name@),
        pins_of(entries)[entries[i].name@] == entries[i].pin@,
    decreases entries.len(),
{
    let before = entries.drop_last();
    if i < before.len() {
        assert(before[i] == entries[i]);
        assert(distinct(before)) by {
            assert forall|a: int, b: int| 0 <= a < b < before.len() implies (
            #[trigger] before[a]).name@ != (#[trigger] before[b]).name@ by {
                assert(entries[a] == before[a] && entries[b] == before[b]);
            }
        }
        lemma_pin_at(before, i);
        assert(entries[i].name@ != entries[entries.len() - 1].name@);
    }
}

proof fn lemma_replace(entries: Seq<Pinned>, i: int, p: Pinned)
    requires
        distinct(entries),
        0 <= i < entries.len(),
        entries[i].name@ == p.name@,
    ensures
        pins_of(entries.update(i, p)) == pins_of(entries).insert(p.name@, p.pin@),
    decreases entries.len(),
{
    let u = entries.update(i, p);
    let before = entries.drop_last();
    if i == entries.len() - 1 {
        assert(u.drop_last() =~= before);
        assert(pins_of(u) =~= pins_of(entries).insert(p.name@, p.pin@));
    } else {
        assert(u.drop_last() =~= before.update(i, p));
        assert(before[i] == entries[i]);
        assert(distinct(before)) by {
            assert forall|a: int, b: int| 0 <= a < b < before.len() implies (
            #[trigger] before[a]).name@ != (#[trigger] before[b]).name@ by {
                assert(entries[a] == before[a] && entries[b] == before[b]);
            }
        }
        lemma_replace(before, i, p);
        assert(entries[i].name@ != entries[entries.len() - 1].name@);
        assert(pins_of(u) =~= pins_of(entries).insert(p.name@, p.pin@));
    }
}

proof fn lemma_removed(entries: Seq<Pinned>, i: int)
    requires
        distinct(entries),
        0 <= i < entries.len(),
    ensures
        pins_of(entries.remove(i)) == pins_of(entries).remove(entries[i].name@),
    decreases entries.len(),
{
    let r = entries.remove(i);
    let name = entries[i].name@;
    let before = entries.drop_last();
    assert(distinct(before)) by {
        assert forall|a: int, b: int| 0 <= a < b < before.len() implies (
        #[trigger] before[a]).name@ != (#[trigger] before[b]).name@ by {
            assert(entries[a] == before[a] && entries[b] == before[b]);
        }
    }
    if i == entries.len() - 1 {
        assert(r =~= before);
        lemma_pins(before, name);
        assert(!pins_of(before).contains_key(name)) by {
            assert forall|k: int| 0 <= k < before.len() implies (#[trigger] before[k]).name@
                != name by {
                assert(entries[k] == before[k]);
            }
        }
        assert(pins_of(r) =~= pins_of(entries).remove(name));
    } else {
        assert(r.drop_last() =~= before.remove(i));
        assert(r.last() == entries.last());
        assert(before[i] == entries[i]);
        lemma_removed(before, i);
        assert(entries[i].name@ != entries[entries.len() - 1].name@);
        assert(pins_of(r) =~= pins_of(entries).remove(name));
    }
}

/// Whether texts are the names of the pins, each once and in order.
pub open spec fn is_listing(v: Seq<Seq<char>>, pins: Map<Seq<char>, PinView>) -> bool {
    &&& in_order(v)
    &&& v.no_duplicates()
    &&& forall|name: Seq<char>| #[trigger] v.contains(name) <==> pins.contains_key(name)
}

/// The names of the pins, each once and in order.
pub open spec fn names_of(pins: Map<Seq<char>, PinView>) -> Seq<Seq<char>> {
    choose|v: Seq<Seq<char>>| is_listing(v, pins)
}

/// Names have one order.
pub proof fn lemma_listing_is_unique(a: Seq<Seq<char>>, b: Seq<Seq<char>>)
    requires
        in_order(a),
        in_order(b),
        a.no_duplicates(),
        b.no_duplicates(),
        forall|name: Seq<char>| #[trigger] a.contains(name) <==> b.contains(name),
    ensures
        a == b,
    decreases a.len(),
{
    if a.len() == 0 {
        if b.len() > 0 {
            assert(b.contains(b[0]));
            assert(a.contains(b[0]));
        }
        assert(a =~= b);
    } else {
        assert(a.contains(a[0]));
        let j = choose|j: int| 0 <= j < b.len() && b[j] == a[0];
        assert(b.contains(b[0]));
        assert(a.contains(b[0]));
        let i = choose|i: int| 0 <= i < a.len() && a[i] == b[0];
        lemma_precedes_total(a[0], b[0]);
        if i > 0 && j > 0 {
            assert(!precedes(a[i], a[0]));
            assert(!precedes(b[j], b[0]));
        }
        assert(a[0] == b[0]);
        let c = a.drop_first();
        let d = b.drop_first();
        assert forall|name: Seq<char>| #[trigger] c.contains(name) <==> d.contains(name) by {
            if c.contains(name) {
                let k = choose|k: int| 0 <= k < c.len() && c[k] == name;
                assert(a[k + 1] == name);
                assert(a.contains(name));
                let m = choose|m: int| 0 <= m < b.len() && b[m] == name;
                assert(d[m - 1] == name);
            }
            if d.contains(name) {
                let k = choose|k: int| 0 <= k < d.len() && d[k] == name;
                assert(b[k + 1] == name);
                assert(b.contains(name));
                assert(a.contains(name));
                let m = choose|m: int| 0 <= m < a.len() && a[m] == name;
                assert(c[m - 1] == name);
            }
        }
        lemma_listing_is_unique(c, d);
        assert(a =~= seq![a[0]] + c);
        assert(b =~= seq![b[0]] + d);
    }
}

/// What is said of a plugin that was updated.
pub open spec fn update_text(
    pins: Map<Seq<char>, PinView>,
    name: Seq<char>,
    rev: Seq<char>,
) -> Seq<char> {
    if pins.contains_key(name) && pins[name].rev == rev {
        name + " already current"@
    } else {
        name + " updated to "@ + short_of(rev)
    }
}

impl Default for Lock {
    fn default() -> (l: Self)
        ensures
            l@ == Map::<Seq<char>, PinView>::empty(),
    {
        Lock { plugins: Vec::new() }
    }
}

impl Lock {
    #[verifier::type_invariant]
    spec fn inv(self) -> bool {
        distinct(self.plugins@)
    }

    fn position(&self, name: &str) -> (r: Option<usize>)
        ensures
            match r {
                Some(i) => i < self.plugins@.len() && self.plugins@[i as int].name@ == name@
                    && self@.contains_key(name@),
                None => !self@.contains_key(name@),
            },
    {
        let n: usize = self.plugins.len();
        let mut i: usize = 0;
        while i < n
            invariant
                i <= n == self.plugins@.len(),
                forall|k: int| 0 <= k < i ==> (#[trigger] self.plugins@[k]).name@ != name@,
            decreases n - i,
        {
            if same_text(self.plugins[i].name.as_str(), name) {
                proof {
                    lemma_pins(self.plugins@, name@);
                    assert(self.plugins@[i as int].name@ == name@);
                }
                return Some(i);
            }
            i = i + 1;
        }
        proof {
            lemma_pins(self.plugins@, name@);
        }
        None
    }

    /// What a plugin is pinned to.
    pub fn get(&self, name: &str) -> (p: Option<&Pin>)
        ensures
            match p {
                Some(q) => self@.contains_key(name@) && self@[name@] == q@,
                None => !self@.contains_key(name@),
            },
    {
        proof {
            use_type_invariant(self);
        }
        match self.position(name) {
            Some(i) => {
                proof {
                    lemma_pin_at(self.plugins@, i as int);
                }
                Some(&self.plugins[i].pin)
            },
            None => None,
        }
    }

    /// Pins a plugin.
    pub fn insert(&mut self, name: String, pin: Pin)
        ensures
            final(self)@ == old(self)@.insert(name@, pin@),
    {
        proof {
            use_type_invariant(&*self);
        }
        let found = self.position(name.as_str());
        let mut plugins: Vec<Pinned> = Vec::new();
        std::mem::swap(&mut plugins, &mut self.plugins);
        let ghost before = plugins@;
        let ghost p = Pinned { name, pin };
        match found {
            Some(i) => {
                proof {
                    lemma_replace(before, i as int, p);
                }
                plugins.set(i, Pinned { name, pin });
                assert(plugins@ =~= before.update(i as int, p));
            },
            None => {
                proof {
                    lemma_pins(before, name@);
                }
                plugins.push(Pinned { name, pin });
                assert(plugins@.drop_last() =~= before);
            },
        }
        assert(distinct(plugins@));
        self.plugins = plugins;
    }

    /// Forgets a plugin.
    pub fn remove(&mut self, name: &str)
        ensures
            final(self)@ == old(self)@.remove(name@),
    {
        proof {
            use_type_invariant(&*self);
        }
        match self.position(name) {
            Some(i) => {
                let mut plugins: Vec<Pinned> = Vec::new();
                std::mem::swap(&mut plugins, &mut self.plugins);
                let ghost before = plugins@;
                proof {
                    lemma_removed(before, i as int);
                }
                let _ = plugins.remove(i);
                assert(plugins@ =~= before.remove(i as int));
                assert(distinct(plugins@));
                self.plugins = plugins;
            },
            None => {
                assert(self@ =~= self@.remove(name@));
            },
        }
    }

    /// The names of the pinned plugins, in order.
    pub fn names(&self) -> (v: Vec<String>)
        ensures
            texts_view(v@) == names_of(self@),
            is_listing(texts_view(v@), self@),
    {
        proof {
            use_type_invariant(self);
        }
        let mut names: Vec<String> = Vec::new();
        let n: usize = self.plugins.len();
        let mut i: usize = 0;
        while i < n
            invariant
                i <= n == self.plugins@.len(),
                names@.len() == i,
                forall|k: int| 0 <= k < i ==> (#[trigger] names@[k])@ == self.plugins@[k].name@,
            decreases n - i,
        {
            names.push(self.plugins[i].name.clone());
            i = i + 1;
        }
        let ghost all = texts_view(names@);
        let sorted = sort_names(names);
        proof {
            let s = texts_view(sorted@);
            assert(all.no_duplicates());
            all.lemma_multiset_has_no_duplicates();
            s.lemma_multiset_has_no_duplicates_conv();
            assert forall|name: Seq<char>| #[trigger] s.contains(name) <==> self@.contains_key(
                name,
            ) by {
                lemma_pins(self.plugins@, name);
                s.to_multiset_ensures();
                all.to_multiset_ensures();
                assert(s.to_multiset().count(name) == all.to_multiset().count(name));
                if all.contains(name) {
                    let k = choose|k: int| 0 <= k < all.len() && all[k] == name;
                    assert(self.plugins@[k].name@ == name);
                }
                if self@.contains_key(name) {
                    let k = choose|k: int|
                        0 <= k < self.plugins@.len() && (#[trigger] self.plugins@[k]).name@ == name;
                    assert(all[k] == name);
                }
            }
        }
        proof {
            assert(is_listing(texts_view(sorted@), self@));
            lemma_listing_is_unique(texts_view(sorted@), names_of(self@));
        }
        sorted
    }

    /// How a plugin is listed: its name, its directory, and its revision.
    pub fn line(&self, name: &str, kind: Kind) -> (s: String)
        ensures
            s@ == list_line(self@, name@, kind),
    {
        let pinned = match self.get(name) {
            Some(p) => short(p.rev.as_str()),
            None => "unpinned".to_owned(),
        };
        let dir = kind.dir();
        let mut s = join3(name, "  ", dir.as_str());
        s.append("  ");
        s.append(pinned.as_str());
        s
    }

    /// What is said of a plugin that was updated.
    pub fn update_line(&self, name: &str, rev: &str) -> (s: String)
        ensures
            s@ == update_text(self@, name@, rev@),
    {
        let current = match self.get(name) {
            Some(p) => same_text(p.rev.as_str(), rev),
            None => false,
        };
        if current {
            crate::text::join(name, " already current")
        } else {
            let r = short(rev);
            join3(name, " updated to ", r.as_str())
        }
    }
}

/// What is listed: for each kind, the plugins in its directory, in order.
pub fn list(lock: &Lock, start: Vec<String>, opt: Vec<String>) -> (lines: Vec<String>)
    ensures
        texts_view(lines@) == listed(lock@, sorted_texts(texts_view(start@)), Kind::Start)
            + listed(lock@, sorted_texts(texts_view(opt@)), Kind::Opt),
{
    let first = sort_names(start);
    let second = sort_names(opt);
    let ghost a = texts_view(first@);
    let ghost b = texts_view(second@);
    let mut lines: Vec<String> = Vec::new();
    push_lines(lock, &first, Kind::Start, &mut lines);
    push_lines(lock, &second, Kind::Opt, &mut lines);
    assert(texts_view(lines@) =~= listed(lock@, a, Kind::Start) + listed(lock@, b, Kind::Opt));
    lines
}

/// How a plugin is listed.
pub open spec fn list_line(
    pins: Map<Seq<char>, PinView>,
    name: Seq<char>,
    kind: Kind,
) -> Seq<char> {
    name + "  "@ + kind.directory() + "  "@ + if pins.contains_key(name) {
        short_of(pins[name].rev)
    } else {
        "unpinned"@
    }
}

/// How the plugins of a kind are listed.
pub open spec fn listed(
    pins: Map<Seq<char>, PinView>,
    names: Seq<Seq<char>>,
    kind: Kind,
) -> Seq<Seq<char>> {
    Seq::new(names.len(), |i: int| list_line(pins, names[i], kind))
}

fn push_lines(lock: &Lock, names: &Vec<String>, kind: Kind, lines: &mut Vec<String>)
    ensures
        texts_view(final(lines)@) == texts_view(old(lines)@) + listed(
            lock@,
            texts_view(names@),
            kind,
        ),
{
    let ghost before = texts_view(lines@);
    let ghost all = texts_view(names@);
    let n: usize = names.len();
    let mut i: usize = 0;
    while i < n
        invariant
            i <= n == names@.len(),
            all == texts_view(names@),
            texts_view(lines@) =~= before + listed(lock@, all, kind).take(i as int),
        decreases n - i,
    {
        let ghost so_far = texts_view(lines@);
        let line = lock.line(names[i].as_str(), kind);
        assert(line@ == listed(lock@, all, kind)[i as int]);
        lines.push(line);
        assert(texts_view(lines@) =~= so_far.push(listed(lock@, all, kind)[i as int]));
        i = i + 1;
    }
    assert(listed(lock@, all, kind).take(i as int) =~= listed(lock@, all, kind));
}

/// A plugin is listed with its name first and, at the end, the start of the
/// revision that it is pinned to.
pub proof fn a_plugin_is_listed_with_its_revision(
    pins: Map<Seq<char>, PinView>,
    name: Seq<char>,
    kind: Kind,
)
    ensures
        list_line(pins, name, kind).take(name.len() as int) == name,
        pins.contains_key(name) && pins[name].rev.len() >= 9 ==> list_line(pins, name, kind).skip(
            list_line(pins, name, kind).len() - 9,
        ) == pins[name].rev.take(9),
        list_line(pins, name, kind).subrange(
            name.len() as int + 2,
            name.len() as int + 2 + kind.directory().len(),
        ) == kind.directory(),
        !pins.contains_key(name) ==> list_line(pins, name, kind).skip(
            list_line(pins, name, kind).len() - "unpinned"@.len(),
        ) == "unpinned"@,
{
    reveal_strlit("  ");
    assert("  "@.len() == 2);
    let line = list_line(pins, name, kind);
    assert(line.take(name.len() as int) =~= name);
    assert(line.subrange(name.len() as int + 2, name.len() as int + 2 + kind.directory().len())
        =~= kind.directory());
    if pins.contains_key(name) {
        if pins[name].rev.len() >= 9 {
            assert(pins[name].rev.take(9).len() == 9);
            if pins[name].rev.len() == 9 {
                assert(pins[name].rev.take(9) =~= pins[name].rev);
            }
            assert(line.skip(line.len() - 9) =~= pins[name].rev.take(9));
        }
    } else {
        assert(line.skip(line.len() - "unpinned"@.len()) =~= "unpinned"@);
    }
}

/// An update is said to be one exactly where the revision is another than the
/// one that was pinned.
pub proof fn an_update_is_said_where_there_is_one(
    pins: Map<Seq<char>, PinView>,
    name: Seq<char>,
    rev: Seq<char>,
)
    ensures
        update_text(pins, name, rev).take(name.len() as int) == name,
        pins.contains_key(name) && pins[name].rev == rev ==> update_text(pins, name, rev).skip(
            name.len() as int,
        ) == " already current"@,
        !(pins.contains_key(name) && pins[name].rev == rev) ==> update_text(pins, name, rev).skip(
            name.len() as int,
        ) == " updated to "@ + short_of(rev),
{
    let text = update_text(pins, name, rev);
    assert(text.take(name.len() as int) =~= name);
    if pins.contains_key(name) && pins[name].rev == rev {
        assert(text.skip(name.len() as int) =~= " already current"@);
    } else {
        assert(text.skip(name.len() as int) =~= " updated to "@ + short_of(rev));
    }
}

/// The names of the pins are listed once each and in order, and nothing else
/// is listed.
pub proof fn every_pin_is_listed_once(v: Seq<Seq<char>>, pins: Map<Seq<char>, PinView>, i: int, j: int)
    requires
        is_listing(v, pins),
        0 <= i < j < v.len(),
    ensures
        v[i] != v[j],
        precedes(v[i], v[j]),
        pins.contains_key(v[i]),
        v.to_set() =~= pins.dom(),
{
    assert(!precedes(v[j], v[i]));
    lemma_precedes_total(v[i], v[j]);
    assert(v.contains(v[i]));
}

} // verus!
