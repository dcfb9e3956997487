//! Transition types, mapped onto services of the playback graph.
//!
//! The model stores a transition as a name. Video types composite with
//! `luma`, audio types cross-fade with `mix`, and an unknown name falls back
//! to a plain dissolve rather than failing a render.
use vstd::prelude::*;
use vstd::string::*;

use crate::model::TrackKind;
use crate::text::comes_before;
use crate::text::lemma_precedes_total;
use crate::text::lemma_precedes_transitive;
use crate::text::precedes;
use crate::text::same_text;
use crate::text::texts_view;

verus! {

/// How one transition type is realised.
#[derive(Debug, PartialEq, Eq)]
pub struct TransitionSpec {
    pub service: String,
    pub props: Vec<(String, String)>,
}

/// The contents of a [`TransitionSpec`].
pub struct SpecView {
    pub service: Seq<char>,
    pub props: Seq<(Seq<char>, Seq<char>)>,
}

/// The contents of a list of named values.
pub open spec fn pairs_view(v: Seq<(String, String)>) -> Seq<(Seq<char>, Seq<char>)> {
    Seq::new(v.len(), |i: int| (v[i].0@, v[i].1@))
}

impl View for TransitionSpec {
    type V = SpecView;

    open spec fn view(&self) -> SpecView {
        SpecView { service: self.service@, props: pairs_view(self.props@) }
    }
}

/// A copy of a list of named values.
pub fn copy_pairs(v: &Vec<(String, String)>) -> (c: Vec<(String, String)>)
    ensures
        pairs_view(c@) == pairs_view(v@),
{
    let mut c: Vec<(String, String)> = Vec::new();
    let mut i: usize = 0;
    while i < v.len()
        invariant
            i <= v@.len(),
            c@.len() == i,
            forall|k: int| 0 <= k < i ==> (#[trigger] c@[k]).0@ == v@[k].0@ && c@[k].1@ == v@[k].1@,
        decreases v@.len() - i,
    {
        let p = &v[i];
        c.push((p.0.clone(), p.1.clone()));
        i = i + 1;
    }
    assert(pairs_view(c@) =~= pairs_view(v@));
    c
}

/// Whether two lists of named values hold the same.
pub fn same_pairs(a: &Vec<(String, String)>, b: &Vec<(String, String)>) -> (same: bool)
    ensures
        same == (pairs_view(a@) == pairs_view(b@)),
{
    assert(pairs_view(a@).len() == a@.len());
    assert(pairs_view(b@).len() == b@.len());
    if a.len() != b.len() {
        return false;
    }
    let mut i: usize = 0;
    while i < a.len()
        invariant
            i <= a@.len(),
            a@.len() == b@.len(),
            forall|k: int| 0 <= k < i ==> (#[trigger] a@[k]).0@ == b@[k].0@ && a@[k].1@ == b@[k].1@,
        decreases a@.len() - i,
    {
        if a[i].0 != b[i].0 || a[i].1 != b[i].1 {
            proof {
                assert(pairs_view(a@)[i as int] != pairs_view(b@)[i as int]);
            }
            return false;
        }
        i = i + 1;
    }
    assert(pairs_view(a@) =~= pairs_view(b@));
    true
}

impl Clone for TransitionSpec {
    fn clone(&self) -> (c: Self)
        ensures
            c@ == self@,
    {
        TransitionSpec { service: self.service.clone(), props: copy_pairs(&self.props) }
    }
}

impl TransitionSpec {
    /// A service with at most two properties.
    fn new(service: &str, first: Option<(&str, &str)>, second: Option<(&str, &str)>) -> (s: Self)
        ensures
            s@.service == service@,
            s@.props == (match first {
                Some(p) => seq![(p.0@, p.1@)],
                None => Seq::<(Seq<char>, Seq<char>)>::empty(),
            }) + (match second {
                Some(p) => seq![(p.0@, p.1@)],
                None => Seq::<(Seq<char>, Seq<char>)>::empty(),
            }),
    {
        let mut props: Vec<(String, String)> = Vec::new();
        if let Some(p) = first {
            props.push((p.0.to_owned(), p.1.to_owned()));
        }
        if let Some(p) = second {
            props.push((p.0.to_owned(), p.1.to_owned()));
        }
        let s = TransitionSpec { service: service.to_owned(), props };
        assert(s@.props =~= (match first {
            Some(p) => seq![(p.0@, p.1@)],
            None => Seq::<(Seq<char>, Seq<char>)>::empty(),
        }) + (match second {
            Some(p) => seq![(p.0@, p.1@)],
            None => Seq::<(Seq<char>, Seq<char>)>::empty(),
        }));
        s
    }
}

/// A plain dissolve.
pub open spec fn plain_luma() -> SpecView {
    SpecView { service: "luma"@, props: Seq::<(Seq<char>, Seq<char>)>::empty() }
}

/// A `luma` shaped by a geometry.
pub open spec fn shaped_luma(resource: Seq<char>) -> SpecView {
    SpecView { service: "luma"@, props: seq![("resource"@, resource)] }
}

/// A `luma` shaped by a geometry, run the other way.
pub open spec fn inverted_luma(resource: Seq<char>) -> SpecView {
    SpecView { service: "luma"@, props: seq![("resource"@, resource), ("invert"@, "1"@)] }
}

/// The built-in video types.
pub open spec fn builtin_view(name: Seq<char>) -> Option<SpecView> {
    if name == "dissolve"@ {
        Some(plain_luma())
    } else if name == "wipe_left"@ {
        Some(shaped_luma("%luma01.pgm"@))
    } else if name == "wipe_right"@ {
        Some(inverted_luma("%luma01.pgm"@))
    } else if name == "wipe_up"@ {
        Some(shaped_luma("%luma03.pgm"@))
    } else if name == "wipe_down"@ {
        Some(inverted_luma("%luma03.pgm"@))
    } else if name == "iris"@ {
        Some(shaped_luma("%luma05.pgm"@))
    } else {
        None
    }
}

/// The built-in video type called `name`.
fn builtin(name: &str) -> (found: Option<TransitionSpec>)
    ensures
        match found {
            Some(s) => builtin_view(name@) == Some(s@),
            None => builtin_view(name@) is None,
        },
{
    let found = if same_text(name, "dissolve") {
        Some(TransitionSpec::new("luma", None, None))
    } else if same_text(name, "wipe_left") {
        Some(TransitionSpec::new("luma", Some(("resource", "%luma01.pgm")), None))
    } else if same_text(name, "wipe_right") {
        Some(
            TransitionSpec::new("luma", Some(("resource", "%luma01.pgm")), Some(("invert", "1"))),
        )
    } else if same_text(name, "wipe_up") {
        Some(TransitionSpec::new("luma", Some(("resource", "%luma03.pgm")), None))
    } else if same_text(name, "wipe_down") {
        Some(
            TransitionSpec::new("luma", Some(("resource", "%luma03.pgm")), Some(("invert", "1"))),
        )
    } else if same_text(name, "iris") {
        Some(TransitionSpec::new("luma", Some(("resource", "%luma05.pgm")), None))
    } else {
        None
    };
    proof {
        if found is Some {
            let s = found->Some_0;
            let v = builtin_view(name@)->Some_0;
            assert(s@.props =~= v.props);
        }
    }
    found
}

/// Types registered at run time, on top of the built-in ones, in the order of
/// their names.
#[derive(Debug)]
pub struct Registry {
    pub types: Vec<(String, TransitionSpec)>,
}

impl Registry {
    /// Names are in strictly increasing order, so each occurs once.
    pub open spec fn wf(self) -> bool {
        forall|i: int, j: int|
            0 <= i < j < self.types@.len() ==> precedes(
                (#[trigger] self.types@[i]).0@,
                (#[trigger] self.types@[j]).0@,
            )
    }

    /// Whether `name` is registered.
    pub open spec fn has(self, name: Seq<char>) -> bool {
        exists|i: int| 0 <= i < self.types@.len() && (#[trigger] self.types@[i]).0@ == name
    }

    /// What `name` is registered as.
    pub open spec fn at(self, name: Seq<char>) -> SpecView {
        let i = choose|i: int| 0 <= i < self.types@.len() && (#[trigger] self.types@[i]).0@ == name;
        self.types@[i].1@
    }

    pub fn new() -> (r: Self)
        ensures
            r.wf(),
            forall|name: Seq<char>| !r.has(name),
    {
        Registry { types: Vec::new() }
    }

    /// The first place whose name does not come before `name`.
    fn place(&self, name: &str) -> (i: usize)
        requires
            self.wf(),
        ensures
            i <= self.types@.len(),
            forall|k: int| 0 <= k < i ==> precedes((#[trigger] self.types@[k]).0@, name@),
            forall|k: int|
                i <= k < self.types@.len() ==> !precedes((#[trigger] self.types@[k]).0@, name@),
    {
        let mut i: usize = 0;
        while i < self.types.len() && comes_before(self.types[i].0.as_str(), name)
            invariant
                i <= self.types@.len(),
                forall|k: int| 0 <= k < i ==> precedes((#[trigger] self.types@[k]).0@, name@),
            decreases self.types@.len() - i,
        {
            i = i + 1;
        }
        proof {
            assert forall|k: int| i <= k < self.types@.len() implies !precedes(
                (#[trigger] self.types@[k]).0@,
                name@,
            ) by {
                if k > i && precedes(self.types@[k].0@, name@) {
                    assert(precedes(self.types@[i as int].0@, self.types@[k].0@));
                    lemma_precedes_transitive(
                        self.types@[i as int].0@,
                        self.types@[k].0@,
                        name@,
                    );
                }
            }
        }
        i
    }

    /// Where `name` is registered.
    fn find(&self, name: &str) -> (found: Option<usize>)
        requires
            self.wf(),
        ensures
            match found {
                Some(i) => i < self.types@.len() && self.types@[i as int].0@ == name@ && self.has(
                    name@,
                ) && self.at(name@) == self.types@[i as int].1@,
                None => !self.has(name@),
            },
    {
        let mut i: usize = 0;
        while i < self.types.len()
            invariant
                self.wf(),
                i <= self.types@.len(),
                forall|k: int| 0 <= k < i ==> (#[trigger] self.types@[k]).0@ != name@,
            decreases self.types@.len() - i,
        {
            if same_text(self.types[i].0.as_str(), name) {
                proof {
                    self.lemma_at(i as int);
                }
                return Some(i);
            }
            i = i + 1;
        }
        None
    }

    /// A name is registered once.
    pub proof fn lemma_at(self, i: int)
        requires
            self.wf(),
            0 <= i < self.types@.len(),
        ensures
            self.has(self.types@[i].0@),
            self.at(self.types@[i].0@) == self.types@[i].1@,
    {
        let name = self.types@[i].0@;
        let k = choose|k: int| 0 <= k < self.types@.len() && (#[trigger] self.types@[k]).0@ == name;
        assert(self.types@[i].0@ == name);
        lemma_precedes_total(name, name);
        if k < i {
            assert(precedes(self.types@[k].0@, self.types@[i].0@));
        } else if i < k {
            assert(precedes(self.types@[i].0@, self.types@[k].0@));
        }
    }
}

/// Adds a transition type. A name that is already registered is replaced, so
/// reloading a configuration does not accumulate stale definitions.
pub fn register(registry: &mut Registry, name: &str, service: &str, props: Vec<(String, String)>)
    requires
        old(registry).wf(),
    ensures
        final(registry).wf(),
        forall|other: Seq<char>|
            final(registry).has(other) == (other == name@ || old(registry).has(other)),
        final(registry).at(name@) == (SpecView { service: service@, props: pairs_view(props@) }),
        forall|other: Seq<char>|
            other != name@ && old(registry).has(other) ==> final(registry).at(other) == old(
                registry,
            ).at(other),
{
    let spec = TransitionSpec { service: service.to_owned(), props };
    let i: usize = registry.place(name);
    let ghost before = registry.types@;
    let ghost added = (SpecView { service: service@, props: pairs_view(props@) });
    assert(spec@ == added);
    let owned = name.to_owned();
    if i < registry.types.len() && same_text(registry.types[i].0.as_str(), name) {
        registry.types.set(i, (owned, spec));
    } else {
        proof {
            assert forall|k: int| i <= k < before.len() implies precedes(
                name@,
                (#[trigger] before[k]).0@,
            ) by {
                lemma_precedes_total(before[k].0@, name@);
                if k > i {
                    assert(precedes(before[i as int].0@, before[k].0@));
                    lemma_precedes_total(before[i as int].0@, name@);
                    if before[k].0@ == name@ {
                        assert(!precedes(before[i as int].0@, name@));
                    }
                }
            }
        }
        registry.types.insert(i, (owned, spec));
    }
    proof {
        let after = registry.types@;
        let shift: int = after.len() - before.len();
        assert(after[i as int].0@ == name@);
        assert(forall|k: int| 0 <= k < i ==> after[k] == before[k]);
        assert(forall|k: int| i < k < after.len() ==> after[k] == before[k - shift]);
        assert(registry.wf());
        registry.lemma_at(i as int);
        assert forall|other: Seq<char>| registry.has(other) == (other == name@ || old(registry).has(
            other,
        )) by {
            if registry.has(other) && other != name@ {
                let k = choose|k: int| 0 <= k < after.len() && (#[trigger] after[k]).0@ == other;
                let b: int = if k < i { k } else { k - shift };
                assert(before[b].0@ == other);
            }
            if old(registry).has(other) && other != name@ {
                let b = choose|k: int| 0 <= k < before.len() && (#[trigger] before[k]).0@ == other;
                let k: int = if b < i { b } else { b + shift };
                assert(after[k].0@ == other);
            }
        }
        assert forall|other: Seq<char>| other != name@ && old(registry).has(
            other,
        ) implies registry.at(other) == old(registry).at(other) by {
            let b = choose|k: int| 0 <= k < before.len() && (#[trigger] before[k]).0@ == other;
            let k: int = if b < i { b } else { b + shift };
            assert(after[k].0@ == other);
            old(registry).lemma_at(b);
            registry.lemma_at(k);
        }
    }
}

/// Every registered type's name, in order.
pub fn registered_names(registry: &Registry) -> (names: Vec<String>)
    ensures
        names@.len() == registry.types@.len(),
        forall|i: int| 0 <= i < names@.len() ==> (#[trigger] names@[i])@ == registry.types@[i].0@,
{
    let mut names: Vec<String> = Vec::new();
    let mut i: usize = 0;
    while i < registry.types.len()
        invariant
            i <= registry.types@.len(),
            names@.len() == i,
            forall|k: int| 0 <= k < i ==> (#[trigger] names@[k])@ == registry.types@[k].0@,
        decreases registry.types@.len() - i,
    {
        names.push(registry.types[i].0.clone());
        i = i + 1;
    }
    names
}

/// The built-in types, in the order in which they are listed.
pub open spec fn builtin_names() -> Seq<Seq<char>> {
    seq!["dissolve"@, "wipe_left"@, "wipe_right"@, "wipe_up"@, "wipe_down"@, "iris"@]
}

/// The names among the first `n` registered types that no built-in one has.
pub open spec fn added_names(types: Seq<(String, TransitionSpec)>, n: nat) -> Seq<Seq<char>>
    decreases n,
{
    if n == 0 {
        Seq::empty()
    } else {
        let before = added_names(types, (n - 1) as nat);
        let name = types[n - 1].0@;
        if builtin_view(name) is Some {
            before
        } else {
            before.push(name)
        }
    }
}

/// A type has a built-in name exactly when it is built in.
proof fn lemma_builtin_names(name: Seq<char>)
    ensures
        builtin_names().contains(name) == (builtin_view(name) is Some),
{
    let b = builtin_names();
    if builtin_view(name) is Some {
        assert(b[0] == "dissolve"@ && b[1] == "wipe_left"@ && b[2] == "wipe_right"@ && b[3]
            == "wipe_up"@ && b[4] == "wipe_down"@ && b[5] == "iris"@);
    }
}

proof fn lemma_added_names(types: Seq<(String, TransitionSpec)>, n: nat, name: Seq<char>)
    requires
        n <= types.len(),
    ensures
        added_names(types, n).contains(name) <==> builtin_view(name) is None && exists|i: int|
            0 <= i < n && (#[trigger] types[i]).0@ == name,
    decreases n,
{
    if n > 0 {
        let before = added_names(types, (n - 1) as nat);
        let all = added_names(types, n);
        let last = types[n - 1].0@;
        lemma_added_names(types, (n - 1) as nat, name);
        if all.contains(name) {
            let k = choose|k: int| 0 <= k < all.len() && all[k] == name;
            if k < before.len() {
                assert(before[k] == name);
            } else {
                assert(types[n - 1].0@ == name);
            }
        }
        if before.contains(name) {
            let k = choose|k: int| 0 <= k < before.len() && before[k] == name;
            assert(all[k] == name);
        }
        if builtin_view(last) is None {
            assert(all[before.len() as int] == last);
        }
    }
}

proof fn lemma_added_once(registry: Registry, n: nat)
    requires
        registry.wf(),
        n <= registry.types@.len(),
    ensures
        added_names(registry.types@, n).no_duplicates(),
    decreases n,
{
    if n > 0 {
        let types = registry.types@;
        let before = added_names(types, (n - 1) as nat);
        let last = types[n - 1].0@;
        lemma_added_once(registry, (n - 1) as nat);
        lemma_added_names(types, (n - 1) as nat, last);
        if before.contains(last) {
            let i = choose|i: int| 0 <= i < n - 1 && (#[trigger] types[i]).0@ == last;
            assert(precedes(types[i].0@, types[n - 1].0@));
            lemma_precedes_total(last, last);
        }
        let all = added_names(types, n);
        assert forall|i: int, j: int| 0 <= i < j < all.len() implies all[i] != all[j] by {
            assert(all[i] == before[i]);
            if j < before.len() {
                assert(all[j] == before[j]);
            } else {
                assert(before.contains(before[i]));
            }
        }
    }
}

/// Every transition type a user may name: the built-in ones, then the
/// registered ones, each once.
pub fn names(registry: &Registry) -> (v: Vec<String>)
    requires
        registry.wf(),
    ensures
        texts_view(v@) == builtin_names() + added_names(
            registry.types@,
            registry.types@.len(),
        ),
        forall|name: Seq<char>|
            #[trigger] texts_view(v@).contains(name) <==> builtin_names().contains(name)
                || registry.has(name),
        texts_view(v@).no_duplicates(),
{
    let mut v: Vec<String> = vec![
        "dissolve".to_owned(),
        "wipe_left".to_owned(),
        "wipe_right".to_owned(),
        "wipe_up".to_owned(),
        "wipe_down".to_owned(),
        "iris".to_owned(),
    ];
    assert(texts_view(v@) =~= builtin_names() + added_names(registry.types@, 0));
    let n: usize = registry.types.len();
    let mut i: usize = 0;
    while i < n
        invariant
            i <= n == registry.types@.len(),
            texts_view(v@) == builtin_names() + added_names(registry.types@, i as nat),
        decreases n - i,
    {
        let ghost before = texts_view(v@);
        if builtin(registry.types[i].0.as_str()).is_none() {
            v.push(registry.types[i].0.clone());
            assert(texts_view(v@) =~= before.push(registry.types@[i as int].0@));
        }
        i = i + 1;
        assert(texts_view(v@) =~= builtin_names() + added_names(registry.types@, i as nat));
    }
    proof {
        let first = builtin_names();
        let added = added_names(registry.types@, n as nat);
        let all = texts_view(v@);
        assert forall|name: Seq<char>|
            #[trigger] all.contains(name) <==> first.contains(name) || registry.has(name) by {
            lemma_builtin_names(name);
            lemma_added_names(registry.types@, n as nat, name);
            if all.contains(name) {
                let k = choose|k: int| 0 <= k < all.len() && all[k] == name;
                if k < first.len() {
                    assert(first[k] == name);
                } else {
                    assert(added[k - first.len()] == name);
                }
            }
            if first.contains(name) {
                let k = choose|k: int| 0 <= k < first.len() && first[k] == name;
                assert(all[k] == name);
            } else if registry.has(name) {
                let k = choose|k: int| 0 <= k < added.len() && added[k] == name;
                assert(all[first.len() + k] == name);
            }
        }
        lemma_added_once(*registry, n as nat);
        lemma_builtins_differ();
        assert forall|i: int, j: int| 0 <= i < j < all.len() implies all[i] != all[j] by {
            if j < first.len() {
                assert(all[i] == first[i] && all[j] == first[j]);
            } else if i >= first.len() {
                assert(all[i] == added[i - first.len()] && all[j] == added[j - first.len()]);
            } else {
                assert(first.contains(first[i]));
                assert(added.contains(added[j - first.len()]));
                lemma_builtin_names(first[i]);
                lemma_added_names(registry.types@, n as nat, all[j]);
            }
        }
    }
    v
}

proof fn lemma_builtins_differ()
    ensures
        builtin_names().no_duplicates(),
{
    reveal_strlit("dissolve");
    reveal_strlit("wipe_left");
    reveal_strlit("wipe_right");
    reveal_strlit("wipe_up");
    reveal_strlit("wipe_down");
    reveal_strlit("iris");
    let b = builtin_names();
    assert(b[0].len() == 8 && b[1].len() == 9 && b[2].len() == 10 && b[3].len() == 7 && b[4].len()
        == 9 && b[5].len() == 4);
    assert(b[1][5] == 'l' && b[4][5] == 'd');
}

/// Whether `name` is a transition type that can be rendered as asked.
pub fn is_known(registry: &Registry, name: &str) -> (known: bool)
    requires
        registry.wf(),
    ensures
        known == (builtin_view(name@) is Some || registry.has(name@)),
{
    builtin(name).is_some() || registry.find(name).is_some()
}

/// The service and properties for a transition called `kind`: audio always
/// cross-fades, a registered type wins over a built-in one, and an unknown
/// name is a plain dissolve.
pub open spec fn spec_view(registry: Registry, kind: Seq<char>, track_kind: TrackKind) -> SpecView {
    if track_kind == TrackKind::Audio {
        SpecView { service: "mix"@, props: seq![("start"@, "0"@), ("end"@, "1"@)] }
    } else if registry.has(kind) {
        registry.at(kind)
    } else {
        match builtin_view(kind) {
            Some(v) => v,
            None => plain_luma(),
        }
    }
}

/// The service and properties for `kind` on a track of `track_kind`.
pub fn spec(registry: &Registry, kind: &str, track_kind: TrackKind) -> (s: TransitionSpec)
    requires
        registry.wf(),
    ensures
        s@ == spec_view(*registry, kind@, track_kind),
{
    if track_kind == TrackKind::Audio {
        let s = TransitionSpec::new("mix", Some(("start", "0")), Some(("end", "1")));
        assert(s@.props =~= seq![("start"@, "0"@), ("end"@, "1"@)]);
        return s;
    }
    if let Some(i) = registry.find(kind) {
        return registry.types[i].1.clone();
    }
    match builtin(kind) {
        Some(s) => s,
        None => {
            let s = TransitionSpec::new("luma", None, None);
            assert(s@.props =~= plain_luma().props);
            s
        },
    }
}

/// A type that was just registered is known, is listed, and is rendered by
/// the service it named on every track but an audio one.
pub proof fn registered_type_is_rendered(
    after: Registry,
    name: Seq<char>,
    named: SpecView,
    track_kind: TrackKind,
)
    requires
        after.wf(),
        after.has(name),
        after.at(name) == named,
    ensures
        track_kind != TrackKind::Audio ==> spec_view(after, name, track_kind) == named,
        track_kind == TrackKind::Audio ==> spec_view(after, name, track_kind).service == "mix"@,
        builtin_names().contains(name) || added_names(
            after.types@,
            after.types@.len(),
        ).contains(name),
{
    lemma_builtin_names(name);
    lemma_added_names(after.types@, after.types@.len(), name);
}

/// Audio cross-fades whatever the transition is called.
pub proof fn audio_always_cross_fades(registry: Registry, a: Seq<char>, b: Seq<char>)
    ensures
        spec_view(registry, a, TrackKind::Audio) == spec_view(registry, b, TrackKind::Audio),
        spec_view(registry, a, TrackKind::Audio).service == "mix"@,
{
}

/// A built-in type is made with `luma`: a dissolve has no shape, and a wipe
/// and its opposite have one shape, run the two ways. An unregistered name
/// that is not built in is a dissolve.
pub proof fn built_in_types_are_what_they_are_called(registry: Registry, kind: TrackKind)
    requires
        kind != TrackKind::Audio,
        forall|name: Seq<char>| !#[trigger] registry.has(name),
    ensures
        ({
            let made = |name: Seq<char>| spec_view(registry, name, kind);
            let shaped = |shape: Seq<char>|
                SpecView { service: "luma"@, props: seq![("resource"@, shape)] };
            let reversed = |shape: Seq<char>|
                SpecView {
                    service: "luma"@,
                    props: seq![("resource"@, shape), ("invert"@, "1"@)],
                };
            &&& made("dissolve"@).service == "luma"@
            &&& made("dissolve"@).props.len() == 0
            &&& made("wipe_left"@) == shaped("%luma01.pgm"@)
            &&& made("wipe_right"@) == reversed("%luma01.pgm"@)
            &&& made("wipe_up"@) == shaped("%luma03.pgm"@)
            &&& made("wipe_down"@) == reversed("%luma03.pgm"@)
            &&& made("iris"@) == shaped("%luma05.pgm"@)
            &&& forall|name: Seq<char>|
                !builtin_names().contains(name) ==> #[trigger] spec_view(registry, name, kind)
                    == made("dissolve"@)
        }),
{
    lemma_builtins_differ();
    let b = builtin_names();
    assert(b[0] == "dissolve"@ && b[1] == "wipe_left"@ && b[2] == "wipe_right"@ && b[3]
        == "wipe_up"@ && b[4] == "wipe_down"@ && b[5] == "iris"@);
    assert(b[0] != b[1] && b[0] != b[2] && b[0] != b[3] && b[0] != b[4] && b[0] != b[5]);
    assert(b[1] != b[2] && b[1] != b[3] && b[1] != b[4] && b[1] != b[5]);
    assert(b[2] != b[3] && b[2] != b[4] && b[2] != b[5]);
    assert(b[3] != b[4] && b[3] != b[5] && b[4] != b[5]);
    assert forall|name: Seq<char>| !builtin_names().contains(name) implies #[trigger] spec_view(
        registry,
        name,
        kind,
    ) == spec_view(registry, "dissolve"@, kind) by {
        lemma_builtin_names(name);
    }
}

/// A cross-fade goes from nothing to everything.
pub proof fn a_cross_fade_is_complete(registry: Registry, name: Seq<char>)
    ensures
        spec_view(registry, name, TrackKind::Audio).props == seq![
            ("start"@, "0"@),
            ("end"@, "1"@),
        ],
{
}

} // verus!
