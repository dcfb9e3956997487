//! What fetching, updating and restoring plugins takes. Running git is left to
//! the program around this.
use vstd::prelude::*;
use vstd::string::*;

use crate::pack::error::PackError;
use crate::pack::list::has_name;
use crate::pack::lock::Lock;
use crate::pack::lock::PinView;
use crate::pack::lock::names_of;
use crate::pack::paths::Kind;
use crate::pack::paths::Paths;
use crate::pack::paths::group_dir;
use crate::pack::paths::installed_plugins_share_a_directory;
use crate::pack::paths::joined;
use crate::pack::paths::lands_inside;
use crate::pack::paths::parent;
use crate::pack::paths::parent_of;
use crate::pack::paths::stays_inside;
use crate::pack::spec::Spec;
use crate::text::texts_view;

verus! {

/// A call of git.
#[derive(Debug, PartialEq, Eq)]
pub struct GitCall {
    /// The directory it runs in.
    pub dir: String,
    pub args: Vec<String>,
}

/// The contents of a [`GitCall`].
pub struct GitCallView {
    pub dir: Seq<char>,
    pub args: Seq<Seq<char>>,
}

impl View for GitCall {
    type V = GitCallView;

    open spec fn view(&self) -> GitCallView {
        GitCallView { dir: self.dir@, args: texts_view(self.args@) }
    }
}

/// The contents of a list of calls.
pub open spec fn git_calls(v: Seq<GitCall>) -> Seq<GitCallView> {
    Seq::new(v.len(), |i: int| v[i]@)
}

/// A call of git in a directory.
pub open spec fn git_in(dir: Seq<char>, args: Seq<Seq<char>>) -> GitCallView {
    GitCallView { dir, args }
}

/// A plugin that is about to be installed.
#[derive(Debug, PartialEq, Eq)]
pub struct Install {
    /// The directory that must be there first.
    pub parent: String,
    /// Where the plugin lands.
    pub dir: String,
    pub calls: Vec<GitCall>,
}

/// The calls that install a plugin: it is cloned, and put at the revision that
/// was asked for.
pub open spec fn install_calls(
    parent: Seq<char>,
    dir: Seq<char>,
    url: Seq<char>,
    rev: Option<Seq<char>>,
) -> Seq<GitCallView> {
    let clone = seq![git_in(parent, seq!["clone"@, "--quiet"@, url, dir])];
    match rev {
        Some(r) => clone.push(git_in(dir, seq!["checkout"@, "--quiet"@, r])),
        None => clone,
    }
}

/// The text behind a reference, where there is one.
pub open spec fn asked_rev(rev: Option<&str>) -> Option<Seq<char>> {
    match rev {
        Some(r) => Some(r@),
        None => None,
    }
}

/// What it takes to install a plugin; `exists` is whether something stands
/// where it would land. A name that leads out of the directory of the plugins
/// that were fetched is none.
pub fn plan_add(paths: &Paths, plugin: &Spec, kind: Kind, rev: Option<&str>, exists: bool) -> (r:
    Result<Install, PackError>)
    ensures
        match r {
            Ok(i) => {
                &&& !exists
                &&& stays_inside(kind, plugin.name@)
                &&& i.dir@ == joined(
                    joined(group_dir(paths.site@), kind.directory()),
                    plugin.name@,
                )
                &&& i.parent@ == parent_of(i.dir@)
                &&& git_calls(i.calls@) == install_calls(
                    i.parent@,
                    i.dir@,
                    plugin.url@,
                    asked_rev(rev),
                )
            },
            Err(PackError::AlreadyInstalled(name)) => exists && name@ == plugin.name@,
            Err(PackError::Nameless(name)) => !exists && !stays_inside(kind, plugin.name@)
                && name@ == plugin.name@,
            Err(_) => false,
        },
{
    if exists {
        return Err(PackError::AlreadyInstalled(plugin.name.clone()));
    }
    if !lands_inside(kind, plugin.name.as_str()) {
        return Err(PackError::Nameless(plugin.name.clone()));
    }
    let dir = paths.install_dir(kind, plugin.name.as_str());
    let parent = parent(dir.as_str());
    let mut calls: Vec<GitCall> = Vec::new();
    let clone = GitCall {
        dir: parent.clone(),
        args: vec!["clone".to_owned(), "--quiet".to_owned(), plugin.url.clone(), dir.clone()],
    };
    assert(clone@.args =~= seq!["clone"@, "--quiet"@, plugin.url@, dir@]);
    calls.push(clone);
    assert(git_calls(calls@) =~= install_calls(parent@, dir@, plugin.url@, None));
    if let Some(rev) = rev {
        let ghost before = git_calls(calls@);
        let checkout = GitCall {
            dir: dir.clone(),
            args: vec!["checkout".to_owned(), "--quiet".to_owned(), rev.to_owned()],
        };
        assert(checkout@.args =~= seq!["checkout"@, "--quiet"@, rev@]);
        calls.push(checkout);
        assert(git_calls(calls@) =~= before.push(git_in(dir@, seq!["checkout"@, "--quiet"@, rev@])));
    }
    Ok(Install { parent, dir, calls })
}

/// A plugin that is about to be updated.
#[derive(Debug, PartialEq, Eq)]
pub struct Refresh {
    pub kind: Kind,
    pub dir: String,
    /// Says where the plugin came from.
    pub origin: GitCall,
    /// Fetches what there is now.
    pub fetch: GitCall,
    /// Says what the newest state is called; it may fail.
    pub branch: GitCall,
}

/// What it takes to update a plugin, given where it was found. A name that
/// leads out of the directory of the plugins that were fetched is no plugin's,
/// so nothing else is ever updated.
pub fn plan_update(name: &str, found: Option<(Kind, String)>) -> (r: Result<Refresh, PackError>)
    ensures
        match r {
            Ok(p) => {
                &&& found is Some
                &&& stays_inside(found->Some_0.0, name@)
                &&& p.kind == found->Some_0.0
                &&& p.dir@ == found->Some_0.1@
                &&& p.origin@ == git_in(p.dir@, seq!["remote"@, "get-url"@, "origin"@])
                &&& p.fetch@ == git_in(p.dir@, seq!["fetch"@, "--quiet"@, "origin"@])
                &&& p.branch@ == git_in(
                    p.dir@,
                    seq!["rev-parse"@, "--abbrev-ref"@, "origin/HEAD"@],
                )
            },
            Err(PackError::NotInstalled(n)) => n@ == name@ && !(found is Some && stays_inside(
                found->Some_0.0,
                name@,
            )),
            Err(_) => false,
        },
{
    let (kind, dir) = match found {
        Some(f) => f,
        None => return Err(PackError::NotInstalled(name.to_owned())),
    };
    if !lands_inside(kind, name) {
        return Err(PackError::NotInstalled(name.to_owned()));
    }
    let origin = GitCall {
        dir: dir.clone(),
        args: vec!["remote".to_owned(), "get-url".to_owned(), "origin".to_owned()],
    };
    assert(origin@.args =~= seq!["remote"@, "get-url"@, "origin"@]);
    let fetch = GitCall {
        dir: dir.clone(),
        args: vec!["fetch".to_owned(), "--quiet".to_owned(), "origin".to_owned()],
    };
    assert(fetch@.args =~= seq!["fetch"@, "--quiet"@, "origin"@]);
    let branch = GitCall {
        dir: dir.clone(),
        args: vec!["rev-parse".to_owned(), "--abbrev-ref".to_owned(), "origin/HEAD".to_owned()],
    };
    assert(branch@.args =~= seq!["rev-parse"@, "--abbrev-ref"@, "origin/HEAD"@]);
    Ok(Refresh { kind, dir, origin, fetch, branch })
}

/// What the newest state of a plugin is called.
pub open spec fn newest_of(branch: Option<String>) -> Seq<char> {
    match branch {
        Some(b) => b@,
        None => "origin/HEAD"@,
    }
}

/// The call that moves a plugin to its newest state: what it is called, or the
/// default branch where that is not known.
pub fn plan_checkout(dir: &str, branch: Option<String>) -> (c: GitCall)
    ensures
        c@ == git_in(dir@, seq!["checkout"@, "--quiet"@, "--force"@, newest_of(branch)]),
{
    let ghost target = newest_of(branch);
    let newest = match branch {
        Some(b) => b,
        None => "origin/HEAD".to_owned(),
    };
    assert(newest@ == target);
    let c = GitCall {
        dir: dir.to_owned(),
        args: vec!["checkout".to_owned(), "--quiet".to_owned(), "--force".to_owned(), newest],
    };
    assert(c@.args =~= seq!["checkout"@, "--quiet"@, "--force"@, target]);
    c
}

/// The call that names the revision a plugin is at.
pub fn plan_head(dir: &str) -> (c: GitCall)
    ensures
        c@ == git_in(dir@, seq!["rev-parse"@, "HEAD"@]),
{
    let c = GitCall {
        dir: dir.to_owned(),
        args: vec!["rev-parse".to_owned(), "HEAD".to_owned()],
    };
    assert(c@.args =~= seq!["rev-parse"@, "HEAD"@]);
    c
}

/// The directory to delete for a plugin, given which of the two directories
/// exist. A name that leads out of the directory of the plugins that were
/// fetched is no plugin's, so nothing outside of it is deleted.
pub fn plan_remove(paths: &Paths, name: &str, start: bool, opt: bool) -> (r: Result<
    String,
    PackError,
>)
    ensures
        ({
            let kind = if start {
                Kind::Start
            } else {
                Kind::Opt
            };
            match r {
                Ok(dir) => {
                    &&& start || opt
                    &&& stays_inside(kind, name@)
                    &&& dir@ == joined(joined(group_dir(paths.site@), kind.directory()), name@)
                    &&& dir@ == group_dir(paths.site@) + "/"@ + kind.directory() + "/"@ + name@
                },
                Err(PackError::NotInstalled(n)) => n@ == name@ && !((start || opt)
                    && stays_inside(kind, name@)),
                Err(_) => false,
            }
        }),
{
    if let Some((kind, dir)) = paths.find(name, start, opt) {
        if lands_inside(kind, name) {
            proof {
                installed_plugins_share_a_directory(paths.site@, kind, name@);
            }
            return Ok(dir);
        }
    }
    Err(PackError::NotInstalled(name.to_owned()))
}

/// The plugins to update: those that were named, or all that are pinned.
pub fn names_to_update(lock: &Lock, asked: Vec<String>) -> (v: Vec<String>)
    ensures
        texts_view(v@) == if asked@.len() > 0 {
            texts_view(asked@)
        } else {
            names_of(lock@)
        },
{
    if asked.len() > 0 {
        asked
    } else {
        lock.names()
    }
}

/// A plugin that is to be installed.
#[derive(Debug, PartialEq, Eq)]
pub struct Wanted {
    pub plugin: Spec,
    pub kind: Kind,
    /// The exact revision, where one is asked for.
    pub rev: Option<String>,
}

/// The contents of a [`Wanted`].
pub struct WantedView {
    pub url: Seq<char>,
    pub name: Seq<char>,
    pub kind: Kind,
    pub rev: Option<Seq<char>>,
}

impl View for Wanted {
    type V = WantedView;

    open spec fn view(&self) -> WantedView {
        WantedView {
            url: self.plugin.url@,
            name: self.plugin.name@,
            kind: self.kind,
            rev: match self.rev {
                Some(r) => Some(r@),
                None => None,
            },
        }
    }
}

/// The contents of a list of plugins.
pub open spec fn wanted_views(v: Seq<Wanted>) -> Seq<WantedView> {
    Seq::new(v.len(), |i: int| v[i]@)
}

/// A pinned plugin, as it is installed again: from where it came, in the
/// directory of its kind, at its revision.
pub open spec fn wanted_of(pins: Map<Seq<char>, PinView>, name: Seq<char>) -> WantedView {
    WantedView {
        url: pins[name].url,
        name,
        kind: pins[name].kind,
        rev: Some(pins[name].rev),
    }
}

/// Every pinned plugin, in the order of their names.
pub open spec fn pinned_plugins(pins: Map<Seq<char>, PinView>) -> Seq<WantedView> {
    names_of(pins).map_values(|name: Seq<char>| wanted_of(pins, name))
}

/// Whether a plugin is not among those that are there.
pub open spec fn is_missing(present: Seq<Seq<char>>) -> spec_fn(WantedView) -> bool {
    |w: WantedView| !present.contains(w.name)
}

/// The pinned plugins that are not there, in the order of their names.
pub open spec fn missing_plugins(
    pins: Map<Seq<char>, PinView>,
    present: Seq<Seq<char>>,
) -> Seq<WantedView> {
    pinned_plugins(pins).filter(is_missing(present))
}

fn wanted(lock: &Lock, name: &str) -> (w: Option<Wanted>)
    ensures
        match w {
            Some(v) => lock@.contains_key(name@) && v@ == wanted_of(lock@, name@),
            None => !lock@.contains_key(name@),
        },
{
    match lock.get(name) {
        Some(pin) => {
            let pin = pin.clone();
            Some(
                Wanted {
                    plugin: Spec { url: pin.url, name: name.to_owned() },
                    kind: pin.kind,
                    rev: Some(pin.rev),
                },
            )
        },
        None => None,
    }
}

/// Every pinned plugin, in the order of their names.
pub fn all_pinned(lock: &Lock) -> (v: Vec<Wanted>)
    ensures
        wanted_views(v@) == pinned_plugins(lock@),
{
    let names = lock.names();
    let ghost all = names_of(lock@);
    let n: usize = names.len();
    let mut v: Vec<Wanted> = Vec::new();
    let mut i: usize = 0;
    while i < n
        invariant
            i <= n == names@.len(),
            all == texts_view(names@),
            all == names_of(lock@),
            forall|name: Seq<char>| #[trigger] all.contains(name) ==> lock@.contains_key(name),
            wanted_views(v@) =~= pinned_plugins(lock@).take(i as int),
        decreases n - i,
    {
        assert(all[i as int] == names@[i as int]@);
        assert(all.contains(all[i as int]));
        let ghost before = wanted_views(v@);
        if let Some(w) = wanted(lock, names[i].as_str()) {
            v.push(w);
        }
        assert(wanted_views(v@) =~= before.push(pinned_plugins(lock@)[i as int]));
        i = i + 1;
    }
    assert(pinned_plugins(lock@).take(n as int) =~= pinned_plugins(lock@));
    v
}

/// What it takes to have every pinned plugin again, given the names of those
/// that are there: each that is missing, at the revision that it is pinned to.
pub fn plan_sync(lock: &Lock, present: &Vec<String>) -> (v: Vec<Wanted>)
    ensures
        wanted_views(v@) == missing_plugins(lock@, texts_view(present@)),
{
    let names = lock.names();
    let ghost all = names_of(lock@);
    let ghost plugins = pinned_plugins(lock@);
    let ghost missing = is_missing(texts_view(present@));
    let n: usize = names.len();
    let mut v: Vec<Wanted> = Vec::new();
    let mut i: usize = 0;
    proof {
        reveal(Seq::filter);
    }
    assert(wanted_views(v@) =~= plugins.take(0).filter(missing));
    while i < n
        invariant
            i <= n == names@.len(),
            all == texts_view(names@),
            all == names_of(lock@),
            plugins == pinned_plugins(lock@),
            missing == is_missing(texts_view(present@)),
            forall|name: Seq<char>| #[trigger] all.contains(name) ==> lock@.contains_key(name),
            wanted_views(v@) == plugins.take(i as int).filter(missing),
        decreases n - i,
    {
        assert(all[i as int] == names@[i as int]@);
        assert(all.contains(all[i as int]));
        let ghost before = wanted_views(v@);
        proof {
            reveal(Seq::filter);
            let next = plugins.take(i as int + 1);
            assert(next.drop_last() =~= plugins.take(i as int));
            assert(next.last() == wanted_of(lock@, all[i as int]));
        }
        let name = names[i].as_str();
        if !has_name(present, name) {
            if let Some(w) = wanted(lock, name) {
                v.push(w);
            }
            assert(wanted_views(v@) =~= before.push(wanted_of(lock@, name@)));
        }
        i = i + 1;
    }
    assert(plugins.take(n as int) =~= plugins);
    v
}

/// The directories to install between: the two that were set, or else those of
/// the editor. `editor` is `None` where there is no home, and its second part
/// where it has no place for plugins.
pub fn choose_paths(
    config: Option<String>,
    site: Option<String>,
    editor: Option<(String, Option<String>)>,
) -> (r: Result<Paths, PackError>)
    ensures
        ({
            let both = config is Some && site is Some;
            match r {
                Ok(p) => if both {
                    p.config@ == config->Some_0@ && p.site@ == site->Some_0@
                } else {
                    &&& editor is Some && editor->Some_0.1 is Some
                    &&& p.config@ == editor->Some_0.0@
                    &&& p.site@ == editor->Some_0.1->Some_0@
                },
                Err(PackError::NoHome) => !both && editor is None,
                Err(PackError::NoSite) => !both && editor is Some && editor->Some_0.1 is None,
                Err(_) => false,
            }
        }),
{
    if let (Some(config), Some(site)) = (config, site) {
        return Ok(Paths { config, site });
    }
    match editor {
        None => Err(PackError::NoHome),
        Some((_, None)) => Err(PackError::NoSite),
        Some((config, Some(site))) => Ok(Paths { config, site }),
    }
}

/// A plugin is cloned from its address into its own directory, and then, where
/// a revision is asked for, put at exactly that.
pub proof fn a_plugin_is_cloned_and_pinned(
    parent: Seq<char>,
    dir: Seq<char>,
    url: Seq<char>,
    rev: Option<Seq<char>>,
)
    ensures
        ({
            let calls = install_calls(parent, dir, url, rev);
            &&& calls.len() == (if rev is Some {
                2int
            } else {
                1
            })
            &&& calls[0].dir == parent
            &&& calls[0].args[0] == "clone"@
            &&& calls[0].args[calls[0].args.len() - 2] == url
            &&& calls[0].args.last() == dir
            &&& rev is Some ==> calls[1].dir == dir && calls[1].args[0] == "checkout"@
                && calls[1].args.last() == rev->Some_0
        }),
{
}

/// A plugin that is restored is the pinned one: from its address, of its kind,
/// at its revision.
pub proof fn a_restored_plugin_is_the_pinned_one(pins: Map<Seq<char>, PinView>, i: int)
    requires
        0 <= i < names_of(pins).len(),
    ensures
        ({
            let w = pinned_plugins(pins)[i];
            let pin = pins[names_of(pins)[i]];
            &&& pinned_plugins(pins).len() == names_of(pins).len()
            &&& w.name == names_of(pins)[i]
            &&& w.url == pin.url
            &&& w.kind == pin.kind
            &&& w.rev == Some(pin.rev)
        }),
{
}

} // verus!
