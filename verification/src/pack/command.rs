//! The command line of the program that fetches plugins.
use vstd::prelude::*;
use vstd::string::*;

use crate::pack::error::PackError;
use crate::pack::list::short;
use crate::pack::list::short_of;
use crate::pack::paths::Kind;
use crate::pack::spec::Spec;
use crate::pack::spec::address;
use crate::pack::spec::bare;
use crate::pack::spec::cleaned;
use crate::pack::spec::tail_of;
use crate::text::begins_with;
use crate::text::join;
use crate::text::join3;
use crate::text::same_text;
use crate::text::starts_with;
use crate::text::texts_view;

verus! {

/// What the program is asked to do.
#[derive(Debug, PartialEq, Eq)]
pub enum Command {
    /// Install a plugin and pin it.
    Add { plugin: Spec, kind: Kind },
    /// Update these plugins, or all where none is named.
    Update(Vec<String>),
    /// Install what is pinned and not there.
    Sync,
    Remove(String),
    List,
    Help,
}

/// Whether a text is among others, from the second on.
pub open spec fn flagged(args: Seq<Seq<char>>, flag: Seq<char>) -> bool {
    exists|i: int| 1 <= i < args.len() && #[trigger] args[i] == flag
}

/// The first argument, from the `i`-th on, that is not a flag.
pub open spec fn operand(args: Seq<Seq<char>>, i: int) -> Option<Seq<char>>
    decreases args.len() - i,
{
    if i >= args.len() {
        None
    } else if !begins_with(args[i], "--"@) {
        Some(args[i])
    } else {
        operand(args, i + 1)
    }
}

/// Reads the command line.
pub fn parse(args: &Vec<String>) -> (r: Result<Command, PackError>)
    ensures
        ({
            let a = texts_view(args@);
            let name = if a.len() == 0 {
                "help"@
            } else {
                a[0]
            };
            if name == "add"@ {
                match operand(a, 1) {
                    None => r matches Err(PackError::AddWhat),
                    Some(s) => match r {
                        Ok(Command::Add { plugin, kind }) => {
                            &&& address(cleaned(s)) == Some(plugin.url@)
                            &&& plugin.name@ == bare(tail_of(plugin.url@))
                            &&& plugin.name@.len() > 0
                            &&& cleaned(s).len() > 0
                            &&& kind == if flagged(a, "--opt"@) {
                                Kind::Opt
                            } else {
                                Kind::Start
                            }
                        },
                        Err(PackError::Unnamed) => cleaned(s).len() == 0,
                        Err(PackError::NotAPlugin(t)) => cleaned(s).len() > 0 && address(
                            cleaned(s),
                        ) is None && t@ == cleaned(s),
                        Err(PackError::Nameless(t)) => cleaned(s).len() > 0 && address(
                            cleaned(s),
                        ) is Some && bare(tail_of(address(cleaned(s))->Some_0)).len() == 0 && t@
                            == cleaned(s),
                        _ => false,
                    },
                }
            } else if name == "update"@ {
                r matches Ok(Command::Update(v)) && texts_view(v@) == a.skip(1)
            } else if name == "sync"@ {
                r matches Ok(Command::Sync)
            } else if name == "remove"@ {
                if a.len() < 2 {
                    r matches Err(PackError::RemoveWhat)
                } else {
                    r matches Ok(Command::Remove(n)) && n@ == a[1]
                }
            } else if name == "list"@ {
                r matches Ok(Command::List)
            } else if name == "-h"@ || name == "--help"@ || name == "help"@ {
                r matches Ok(Command::Help)
            } else {
                r matches Err(PackError::UnknownCommand(n)) && n@ == name
            }
        }),
{
    let ghost a = texts_view(args@);
    proof {
        lemma_names();
    }
    let n: usize = args.len();
    if n == 0 {
        return Ok(Command::Help);
    }
    assert(a[0] == args@[0]@);
    let name = args[0].as_str();
    if same_text(name, "add") {
        return parse_add(args);
    }
    if same_text(name, "update") {
        let mut v: Vec<String> = Vec::new();
        let mut i: usize = 1;
        while i < n
            invariant
                1 <= i <= n == args@.len(),
                a == texts_view(args@),
                texts_view(v@) =~= a.subrange(1, i as int),
            decreases n - i,
        {
            let ghost before = texts_view(v@);
            v.push(args[i].clone());
            assert(texts_view(v@) =~= before.push(a[i as int]));
            i = i + 1;
        }
        assert(texts_view(v@) =~= a.skip(1));
        return Ok(Command::Update(v));
    }
    if same_text(name, "sync") {
        return Ok(Command::Sync);
    }
    if same_text(name, "remove") {
        if n < 2 {
            return Err(PackError::RemoveWhat);
        }
        return Ok(Command::Remove(args[1].clone()));
    }
    if same_text(name, "list") {
        return Ok(Command::List);
    }
    if same_text(name, "-h") || same_text(name, "--help") || same_text(name, "help") {
        return Ok(Command::Help);
    }
    Err(PackError::UnknownCommand(name.to_owned()))
}

proof fn lemma_names()
    ensures
        "help"@ != "add"@,
        "help"@ != "update"@,
        "help"@ != "sync"@,
        "help"@ != "remove"@,
        "help"@ != "list"@,
{
    reveal_strlit("help");
    reveal_strlit("add");
    reveal_strlit("update");
    reveal_strlit("sync");
    reveal_strlit("remove");
    reveal_strlit("list");
    assert("help"@[0] == 'h');
    assert("add"@[0] == 'a');
    assert("update"@[0] == 'u');
    assert("sync"@[0] == 's');
    assert("remove"@[0] == 'r');
    assert("list"@[0] == 'l');
}

fn parse_add(args: &Vec<String>) -> (r: Result<Command, PackError>)
    requires
        args@.len() > 0,
    ensures
        ({
            let a = texts_view(args@);
            match operand(a, 1) {
                None => r matches Err(PackError::AddWhat),
                Some(s) => match r {
                    Ok(Command::Add { plugin, kind }) => {
                        &&& address(cleaned(s)) == Some(plugin.url@)
                        &&& plugin.name@ == bare(tail_of(plugin.url@))
                        &&& plugin.name@.len() > 0
                        &&& cleaned(s).len() > 0
                        &&& kind == if flagged(a, "--opt"@) {
                            Kind::Opt
                        } else {
                            Kind::Start
                        }
                    },
                    Err(PackError::Unnamed) => cleaned(s).len() == 0,
                    Err(PackError::NotAPlugin(t)) => cleaned(s).len() > 0 && address(
                        cleaned(s),
                    ) is None && t@ == cleaned(s),
                    Err(PackError::Nameless(t)) => cleaned(s).len() > 0 && address(
                        cleaned(s),
                    ) is Some && bare(tail_of(address(cleaned(s))->Some_0)).len() == 0 && t@
                        == cleaned(s),
                    _ => false,
                },
            }
        }),
{
    let ghost a = texts_view(args@);
    let n: usize = args.len();
    let mut kind = Kind::Start;
    let mut i: usize = 1;
    while i < n
        invariant
            1 <= i <= n == args@.len(),
            a == texts_view(args@),
            kind == (if exists|k: int| 1 <= k < i && #[trigger] a[k] == "--opt"@ {
                Kind::Opt
            } else {
                Kind::Start
            }),
        decreases n - i,
    {
        assert(a[i as int] == args@[i as int]@);
        if same_text(args[i].as_str(), "--opt") {
            kind = Kind::Opt;
        }
        i = i + 1;
    }
    let mut i: usize = 1;
    while i < n && starts_with(args[i].as_str(), "--")
        invariant
            1 <= i <= n == args@.len(),
            a == texts_view(args@),
            operand(a, 1) == operand(a, i as int),
        decreases n - i,
    {
        assert(a[i as int] == args@[i as int]@);
        i = i + 1;
    }
    if i == n {
        return Err(PackError::AddWhat);
    }
    assert(a[i as int] == args@[i as int]@);
    match Spec::parse(args[i].as_str()) {
        Ok(plugin) => Ok(Command::Add { plugin, kind }),
        Err(e) => Err(e),
    }
}

/// Texts with commas between them.
pub open spec fn listed_with_commas(v: Seq<Seq<char>>) -> Seq<char>
    decreases v.len(),
{
    if v.len() == 0 {
        Seq::empty()
    } else if v.len() == 1 {
        v[0]
    } else {
        listed_with_commas(v.drop_last()) + ", "@ + v.last()
    }
}

/// What is said after the pinned plugins were installed.
pub open spec fn sync_text(restored: Seq<Seq<char>>) -> Seq<char> {
    if restored.len() == 0 {
        "every pinned plugin is already installed"@
    } else {
        "installed "@ + listed_with_commas(restored)
    }
}

/// What is said after the pinned plugins were installed.
pub fn sync_line(restored: &Vec<String>) -> (s: String)
    ensures
        s@ == sync_text(texts_view(restored@)),
{
    let n: usize = restored.len();
    if n == 0 {
        return "every pinned plugin is already installed".to_owned();
    }
    let ghost all = texts_view(restored@);
    let mut list = restored[0].clone();
    let mut i: usize = 1;
    proof {
        assert(all.take(1).len() == 1);
        assert(all.take(1)[0] == restored@[0]@);
    }
    while i < n
        invariant
            1 <= i <= n == restored@.len(),
            all == texts_view(restored@),
            list@ == listed_with_commas(all.take(i as int)),
        decreases n - i,
    {
        proof {
            let next = all.take(i as int + 1);
            assert(next.drop_last() =~= all.take(i as int));
            assert(next.last() == restored@[i as int]@);
        }
        list.append(", ");
        list.append(restored[i].as_str());
        i = i + 1;
    }
    assert(all.take(i as int) =~= all);
    join("installed ", list.as_str())
}

/// What is said after a plugin was installed.
pub open spec fn add_text(name: Seq<char>, rev: Seq<char>) -> Seq<char> {
    "installed "@ + name + " at "@ + short_of(rev)
}

/// What is said after a plugin was installed.
pub fn add_line(name: &str, rev: &str) -> (s: String)
    ensures
        s@ == add_text(name@, rev@),
{
    let r = short(rev);
    let mut s = join3("installed ", name, " at ");
    s.append(r.as_str());
    s
}

/// How the program is used.
pub open spec fn usage_text() -> Seq<char> {
    "davimci-pack - install davimci plugins\n\n  davimci-pack add [--opt] <user/repo | url>   install and pin\n  davimci-pack update [name...]                pull and re-pin\n  davimci-pack sync                            install what the lockfile names\n  davimci-pack remove <name>                   delete an installed plugin\n  davimci-pack list                            what is installed, and its pin\n\nPlugins install under <site>/pack/fetched/{start,opt}/ and are pinned in\n<config>/davimci-lock.json. Enable one in plugins.lua; an opt plugin runs\nwhen davimci.pack.add names it."@
}

/// How the program is used.
pub fn usage() -> (s: String)
    ensures
        s@ == usage_text(),
{
    "davimci-pack - install davimci plugins\n\n  davimci-pack add [--opt] <user/repo | url>   install and pin\n  davimci-pack update [name...]                pull and re-pin\n  davimci-pack sync                            install what the lockfile names\n  davimci-pack remove <name>                   delete an installed plugin\n  davimci-pack list                            what is installed, and its pin\n\nPlugins install under <site>/pack/fetched/{start,opt}/ and are pinned in\n<config>/davimci-lock.json. Enable one in plugins.lua; an opt plugin runs\nwhen davimci.pack.add names it.".to_owned()
}

/// What is named is the first argument that is not a flag.
pub proof fn the_first_plain_argument_is_named(args: Seq<Seq<char>>, i: int, k: int)
    requires
        0 <= i <= k < args.len(),
        !begins_with(args[k], "--"@),
        forall|j: int| i <= j < k ==> begins_with(#[trigger] args[j], "--"@),
    ensures
        operand(args, i) == Some(args[k]),
    decreases k - i,
{
    if i < k {
        assert(begins_with(args[i], "--"@));
        the_first_plain_argument_is_named(args, i + 1, k);
    }
}

/// Where there are only flags, nothing is named.
pub proof fn flags_name_nothing(args: Seq<Seq<char>>, i: int)
    requires
        0 <= i,
        forall|j: int| i <= j < args.len() ==> begins_with(#[trigger] args[j], "--"@),
    ensures
        operand(args, i) is None,
    decreases args.len() - i,
{
    if i < args.len() {
        assert(begins_with(args[i], "--"@));
        flags_name_nothing(args, i + 1);
    }
}

/// A list keeps its order, with a comma and a blank between two names.
pub proof fn a_list_keeps_its_order(a: Seq<Seq<char>>, b: Seq<Seq<char>>)
    requires
        a.len() > 0,
        b.len() > 0,
    ensures
        listed_with_commas(a + b) == listed_with_commas(a) + seq![',', ' '] + listed_with_commas(b),
        a.len() == 1 ==> listed_with_commas(a) == a[0],
    decreases b.len(),
{
    reveal_strlit(", ");
    assert(", "@ =~= seq![',', ' ']);
    assert((a + b).drop_last() =~= a + b.drop_last());
    assert((a + b).last() == b.last());
    if b.len() == 1 {
        assert(a + b.drop_last() =~= a);
        assert(listed_with_commas(b) == b[0]);
    } else {
        a_list_keeps_its_order(a, b.drop_last());
        assert(listed_with_commas(a) + seq![',', ' '] + (listed_with_commas(b.drop_last()) + ", "@
            + b.last()) =~= listed_with_commas(a) + seq![',', ' '] + listed_with_commas(
            b.drop_last(),
        ) + ", "@ + b.last());
    }
}

/// A flag counts wherever it stands after the command, and only there.
pub proof fn a_flag_counts_wherever_it_stands(args: Seq<Seq<char>>, flag: Seq<char>, i: int)
    requires
        0 < i < args.len(),
    ensures
        args[i] == flag ==> flagged(args, flag),
        (forall|j: int| 0 < j < args.len() ==> #[trigger] args[j] != flag) ==> !flagged(args, flag),
{
}

} // verus!
