//! Where plugins are installed.
use vstd::prelude::*;
use vstd::string::*;

use crate::text::chars_of;
use crate::text::join;
use crate::text::join3;
use crate::text::parts;
use crate::text::same_text;
use crate::text::split;
use crate::text::text_of;
use crate::text::texts_view;

verus! {

/// Whether a plugin runs at the start, or waits to be named.
#[derive(Clone, Copy, Debug, PartialEq, Eq, Structural)]
pub enum Kind {
    Start,
    Opt,
}

impl Kind {
    /// The directory of a kind.
    pub open spec fn directory(self) -> Seq<char> {
        match self {
            Kind::Start => "start"@,
            Kind::Opt => "opt"@,
        }
    }

    pub fn dir(self) -> (s: String)
        ensures
            s@ == self.directory(),
    {
        match self {
            Kind::Start => "start".to_owned(),
            Kind::Opt => "opt".to_owned(),
        }
    }
}

/// A path with a part after it. A part that begins at the root stands for
/// itself.
pub open spec fn joined(base: Seq<char>, part: Seq<char>) -> Seq<char> {
    if part.len() > 0 && part[0] == '/' {
        part
    } else if base.len() == 0 || base.last() == '/' {
        base + part
    } else {
        base + "/"@ + part
    }
}

/// A path with a part after it.
pub fn join_path(base: &str, part: &str) -> (s: String)
    ensures
        s@ == joined(base@, part@),
{
    let b = chars_of(base);
    let p = chars_of(part);
    let n: usize = b.len();
    if p.len() > 0 && p[0] == '/' {
        part.to_owned()
    } else if n == 0 || b[n - 1] == '/' {
        join(base, part)
    } else {
        join3(base, "/", part)
    }
}

/// The directories that plugins are installed between.
#[derive(Debug, PartialEq, Eq)]
pub struct Paths {
    /// Where the pins are kept.
    pub config: String,
    /// Where the plugins are kept.
    pub site: String,
}

/// The directory of the plugins that were fetched.
pub open spec fn group_dir(site: Seq<char>) -> Seq<char> {
    joined(joined(site, "pack"@), "fetched"@)
}

impl Paths {
    /// Where the pins are kept.
    pub fn lockfile(&self) -> (s: String)
        ensures
            s@ == joined(self.config@, "davimci-lock.json"@),
    {
        join_path(self.config.as_str(), "davimci-lock.json")
    }

    /// The directory of the plugins of a kind.
    pub fn kind_dir(&self, kind: Kind) -> (s: String)
        ensures
            s@ == joined(group_dir(self.site@), kind.directory()),
    {
        let pack = join_path(self.site.as_str(), "pack");
        let group = join_path(pack.as_str(), "fetched");
        let dir = kind.dir();
        join_path(group.as_str(), dir.as_str())
    }

    /// Where a plugin is installed.
    pub fn install_dir(&self, kind: Kind, name: &str) -> (s: String)
        ensures
            s@ == joined(joined(group_dir(self.site@), kind.directory()), name@),
    {
        let dir = self.kind_dir(kind);
        join_path(dir.as_str(), name)
    }

    /// Where a plugin is, given which of the two directories exist: what runs
    /// at the start is found first. The name is taken as it is; what is
    /// installed, updated or deleted is planned only for names that stay
    /// inside.
    pub fn find(&self, name: &str, start: bool, opt: bool) -> (r: Option<(Kind, String)>)
        ensures
            match r {
                Some((kind, dir)) => {
                    &&& dir@ == joined(joined(group_dir(self.site@), kind.directory()), name@)
                    &&& kind == if start {
                        Kind::Start
                    } else {
                        Kind::Opt
                    }
                    &&& start || opt
                },
                None => !start && !opt,
            },
    {
        if start {
            Some((Kind::Start, self.install_dir(Kind::Start, name)))
        } else if opt {
            Some((Kind::Opt, self.install_dir(Kind::Opt, name)))
        } else {
            None
        }
    }
}

/// Where steps lead: one without a name or with a single dot stays, two dots
/// go up, and anything else goes down. `None` where they go up from the top.
pub open spec fn walked(from: Seq<Seq<char>>, steps: Seq<Seq<char>>, n: nat) -> Option<
    Seq<Seq<char>>,
>
    decreases n,
{
    if n == 0 {
        Some(from)
    } else {
        match walked(from, steps, (n - 1) as nat) {
            None => None,
            Some(at) => {
                let step = steps[n - 1];
                if step.len() == 0 || step == "."@ {
                    Some(at)
                } else if step == ".."@ {
                    if at.len() == 0 {
                        None
                    } else {
                        Some(at.drop_last())
                    }
                } else {
                    Some(at.push(step))
                }
            },
        }
    }
}

/// Where a plugin of a kind lands, in steps below the directory of the plugins
/// that were fetched; `None` where its name begins at the root, or leaves that
/// directory on its way.
pub open spec fn landing(kind: Kind, name: Seq<char>) -> Option<Seq<Seq<char>>> {
    if name.len() > 0 && name[0] == '/' {
        None
    } else {
        walked(seq![kind.directory()], parts(name, '/'), parts(name, '/').len())
    }
}

/// Whether a plugin of a kind lands below the directory of the plugins that
/// were fetched.
pub open spec fn stays_inside(kind: Kind, name: Seq<char>) -> bool {
    landing(kind, name) matches Some(at) && at.len() > 0
}

proof fn lemma_left(from: Seq<Seq<char>>, steps: Seq<Seq<char>>, n: nat, m: nat)
    requires
        n <= m,
        walked(from, steps, n) is None,
    ensures
        walked(from, steps, m) is None,
    decreases m - n,
{
    if n < m {
        lemma_left(from, steps, (n + 1) as nat, m);
    }
}

/// Whether a plugin of a kind lands below the directory of the plugins that
/// were fetched.
pub fn lands_inside(kind: Kind, name: &str) -> (b: bool)
    ensures
        b == stays_inside(kind, name@),
{
    let chars = chars_of(name);
    if chars.len() > 0 && chars[0] == '/' {
        return false;
    }
    let steps = split(name, '/');
    let ghost all = parts(name@, '/');
    let ghost from = seq![kind.directory()];
    let n: usize = steps.len();
    let mut depth: u128 = 1;
    let mut i: usize = 0;
    while i < n
        invariant
            i <= n == steps@.len(),
            depth <= i + 1,
            all == texts_view(steps@),
            landing(kind, name@) == walked(from, all, n as nat),
            walked(from, all, i as nat) matches Some(at) && at.len() == depth,
        decreases n - i,
    {
        let step = steps[i].as_str();
        assert(all[i as int] == step@);
        if step.unicode_len() == 0 || same_text(step, ".") {
        } else if same_text(step, "..") {
            if depth == 0 {
                proof {
                    lemma_left(from, all, (i + 1) as nat, n as nat);
                }
                return false;
            }
            depth = depth - 1;
        } else {
            depth = depth + 1;
        }
        i = i + 1;
    }
    depth > 0
}

/// A path without what says nothing at its end: slashes, and single dots after
/// them.
pub open spec fn tidied(path: Seq<char>) -> Seq<char>
    decreases path.len(),
{
    let n = path.len();
    if n > 0 && (path[n - 1] == '/' || (n > 1 && path[n - 1] == '.' && path[n - 2] == '/')) {
        tidied(path.drop_last())
    } else {
        path
    }
}

/// What stands before the last slash.
pub open spec fn before_slash(path: Seq<char>) -> Seq<char>
    decreases path.len(),
{
    if path.len() == 0 {
        path
    } else if path.last() == '/' {
        path.drop_last()
    } else {
        before_slash(path.drop_last())
    }
}

/// The directory that holds what a path below another names.
pub open spec fn parent_of(path: Seq<char>) -> Seq<char> {
    tidied(before_slash(tidied(path)))
}

fn tidy(path: Vec<char>) -> (v: Vec<char>)
    ensures
        v@ == tidied(path@),
{
    let ghost whole = path@;
    let mut v = path;
    let mut n: usize = v.len();
    while n > 0 && (v[n - 1] == '/' || (n > 1 && v[n - 1] == '.' && v[n - 2] == '/'))
        invariant
            n == v@.len(),
            tidied(v@) == tidied(whole),
        decreases n,
    {
        let ghost before = v@;
        v.truncate(n - 1);
        assert(v@ =~= before.drop_last());
        n = n - 1;
    }
    v
}

/// The directory that holds what a path below another names.
pub fn parent(path: &str) -> (s: String)
    ensures
        s@ == parent_of(path@),
{
    let mut v = tidy(chars_of(path));
    let ghost whole = v@;
    let mut n: usize = v.len();
    while n > 0 && v[n - 1] != '/'
        invariant
            n == v@.len(),
            before_slash(v@) == before_slash(whole),
        decreases n,
    {
        let ghost before = v@;
        v.truncate(n - 1);
        assert(v@ =~= before.drop_last());
        n = n - 1;
    }
    if n > 0 {
        let ghost before = v@;
        v.truncate(n - 1);
        assert(v@ =~= before.drop_last());
    }
    let v = tidy(v);
    text_of(v.as_slice())
}

/// A plugin that lands inside has its path below the directory of the plugins
/// that were fetched, and no step of its name leaves that directory.
pub proof fn installed_plugins_share_a_directory(site: Seq<char>, kind: Kind, name: Seq<char>)
    requires
        stays_inside(kind, name),
    ensures
        joined(joined(group_dir(site), kind.directory()), name) == group_dir(site) + "/"@
            + kind.directory() + "/"@ + name,
        forall|n: nat|
            n <= parts(name, '/').len() ==> #[trigger] walked(
                seq![kind.directory()],
                parts(name, '/'),
                n,
            ) is Some,
{
    reveal_strlit("start");
    reveal_strlit("opt");
    reveal_strlit("fetched");
    let g = group_dir(site);
    let k = kind.directory();
    assert("fetched"@[0] == 'f' && "fetched"@.last() == 'd');
    assert(g.last() == 'd');
    assert(k[0] != '/' && k.last() == 't');
    assert(joined(g, k).last() == 't');
    assert forall|n: nat| n <= parts(name, '/').len() implies #[trigger] walked(
        seq![k],
        parts(name, '/'),
        n,
    ) is Some by {
        if walked(seq![k], parts(name, '/'), n) is None {
            lemma_left(seq![k], parts(name, '/'), n, parts(name, '/').len());
        }
    }
}

proof fn lemma_one_part(name: Seq<char>)
    requires
        !name.contains('/'),
    ensures
        parts(name, '/') == seq![name],
    decreases name.len(),
{
    if name.len() > 0 {
        let shorter = name.drop_last();
        assert forall|i: int| 0 <= i < shorter.len() implies shorter[i] != '/' by {
            assert(name.contains(name[i]));
        }
        lemma_one_part(shorter);
        assert(name.contains(name.last()));
        assert(shorter.push(name.last()) =~= name);
        assert(seq![shorter].update(0, name) =~= seq![name]);
    } else {
        assert(name =~= Seq::<char>::empty());
    }
}

proof fn lemma_before_slash(base: Seq<char>, name: Seq<char>)
    requires
        !name.contains('/'),
    ensures
        before_slash(base + "/"@ + name) == base,
    decreases name.len(),
{
    reveal_strlit("/");
    let whole = base + "/"@ + name;
    if name.len() == 0 {
        assert(whole.drop_last() =~= base);
    } else {
        let shorter = name.drop_last();
        assert forall|i: int| 0 <= i < shorter.len() implies shorter[i] != '/' by {
            assert(name.contains(name[i]));
        }
        assert(name.contains(name.last()));
        lemma_before_slash(base, shorter);
        assert(whole.drop_last() =~= base + "/"@ + shorter);
    }
}

/// A plain name is a plugin's own directory, beside the other plugins of its
/// kind.
pub proof fn a_plain_name_lands_beside_the_others(site: Seq<char>, kind: Kind, name: Seq<char>)
    requires
        name.len() > 0,
        !name.contains('/'),
        name != "."@,
        name != ".."@,
    ensures
        landing(kind, name) == Some(seq![kind.directory(), name]),
        stays_inside(kind, name),
        parent_of(joined(joined(group_dir(site), kind.directory()), name)) == joined(
            group_dir(site),
            kind.directory(),
        ),
{
    lemma_one_part(name);
    assert(name.contains(name[0]));
    reveal_with_fuel(walked, 3);
    assert(seq![kind.directory()].push(name) =~= seq![kind.directory(), name]);
    installed_plugins_share_a_directory(site, kind, name);
    reveal_strlit("start");
    reveal_strlit("opt");
    reveal_strlit("/");
    reveal_strlit(".");
    let base = joined(group_dir(site), kind.directory());
    let path = joined(base, name);
    assert(base.last() == 't');
    assert(path =~= base + "/"@ + name);
    assert(path.last() == name.last());
    assert(name.contains(name.last()));
    if name.len() == 1 {
        assert(name.last() != '.') by {
            if name.last() == '.' {
                assert(name =~= "."@);
            }
        }
    } else {
        assert(path[path.len() - 2] == name[name.len() - 2]);
        assert(name.contains(name[name.len() - 2]));
    }
    assert(tidied(path) == path);
    lemma_before_slash(base, name);
    assert(tidied(base) == base);
}

/// A part goes after its base with one slash between them; one that begins at
/// the root stands for itself.
pub proof fn a_part_goes_after_its_base(base: Seq<char>, part: Seq<char>)
    ensures
        part.len() > 0 && part[0] == '/' ==> joined(base, part) == part,
        !(part.len() > 0 && part[0] == '/') ==> {
            let j = joined(base, part);
            let n = j.len() - part.len();
            &&& j.take(base.len() as int) == base
            &&& j.skip(n) == part
            &&& base.len() > 0 ==> n > 0 && j[n - 1] == '/'
            &&& base.len() == 0 ==> n == 0
            &&& base.len() > 0 && base.last() == '/' ==> n == base.len()
            &&& base.len() > 0 && base.last() != '/' ==> n == base.len() + 1
        },
{
    reveal_strlit("/");
    assert("/"@.len() == 1 && "/"@[0] == '/');
    let j = joined(base, part);
    if !(part.len() > 0 && part[0] == '/') {
        let n = j.len() - part.len();
        assert(j.take(base.len() as int) =~= base);
        assert(j.skip(n) =~= part);
    }
}

} // verus!
