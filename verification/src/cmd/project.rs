//! The project file: the last snapshot and the commands since it.
//!
//! Nothing is read or written here. A session becomes a file and a file becomes
//! a session, and an older document is brought up to date first.
use vstd::prelude::*;
use vstd::string::*;
use serde_json::Value;

use crate::class::ErrorClass;
use crate::cmd::command::EditCommand;
use crate::cmd::command::Step;
use crate::cmd::command::run;
use crate::cmd::error::CoreError;
use crate::cmd::error::core_sentence;
use crate::cmd::json::as_number;
use crate::cmd::json::elements;
use crate::cmd::json::empty_list;
use crate::cmd::json::is_object;
use crate::cmd::json::member;
use crate::cmd::json::members;
use crate::cmd::json::number;
use crate::cmd::json::parse;
use crate::cmd::json::parsed;
use crate::cmd::json::set_member;
use crate::cmd::json::whole_number;
use crate::cmd::session::Session;
use crate::cmd::session::SessionView;
use crate::cmd::session::opened;
use crate::cmd::undo::TreeView;
use crate::cmd::undo::base_of;
use crate::cmd::undo::commands_view;
use crate::cmd::undo::faithful;
use crate::cmd::undo::log_of;
use crate::cmd::undo::node_wf;
use crate::cmd::undo::state_holds;
use crate::model::Timeline;
use crate::model::TimelineState;
use crate::text::decimal;
use crate::text::join;
use crate::text::push_decimal;

verus! {

/// The version of the document that is written.
pub const FORMAT_VERSION: u32 = 1;

/// A saved project.
#[derive(Debug)]
pub struct ProjectFile {
    pub version: u32,
    /// The state that the log starts from.
    pub snapshot: Timeline,
    /// The commands since, in order.
    pub log: Vec<EditCommand>,
    /// The id cursor of the saved state: replaying makes no ids, so it is
    /// recorded.
    pub id_cursor: Option<u64>,
}

/// What can go wrong reading or writing a project.
#[derive(Debug, PartialEq, Eq)]
pub enum ProjectError {
    Malformed(String),
    TooNew(u32),
    Unreplayable(String),
}

/// The contents of a [`ProjectError`].
pub enum ProjectErrorView {
    Malformed(Seq<char>),
    TooNew(u32),
    Unreplayable(Seq<char>),
}

impl View for ProjectError {
    type V = ProjectErrorView;

    open spec fn view(&self) -> ProjectErrorView {
        match self {
            ProjectError::Malformed(s) => ProjectErrorView::Malformed(s@),
            ProjectError::TooNew(n) => ProjectErrorView::TooNew(*n),
            ProjectError::Unreplayable(s) => ProjectErrorView::Unreplayable(s@),
        }
    }
}

impl ProjectError {
    /// A document that cannot be read or replayed must not be edited further.
    pub fn class(&self) -> (c: ErrorClass)
        ensures
            c == if self@ is TooNew {
                ErrorClass::User
            } else {
                ErrorClass::Corruption
            },
    {
        match self {
            ProjectError::TooNew(_) => ErrorClass::User,
            _ => ErrorClass::Corruption,
        }
    }

    pub fn user_message(&self) -> (s: String)
        ensures
            s@ == match self@ {
                ProjectErrorView::Malformed(reason) => "this project file is not valid vimci JSON: "@
                    + reason,
                ProjectErrorView::TooNew(n) => "this project was written by a newer vimci (format version "@
                    + decimal(n as nat) + ")"@,
                ProjectErrorView::Unreplayable(reason) => "this project's command log could not be replayed: "@
                    + reason,
            },
    {
        match self {
            ProjectError::Malformed(reason) => join(
                "this project file is not valid vimci JSON: ",
                reason.as_str(),
            ),
            ProjectError::TooNew(n) => {
                let mut s = "this project was written by a newer vimci (format version ".to_owned();
                push_decimal(&mut s, *n as u64);
                s.append(")");
                s
            },
            ProjectError::Unreplayable(reason) => join(
                "this project's command log could not be replayed: ",
                reason.as_str(),
            ),
        }
    }
}

/// The state that a log of commands leads to.
pub open spec fn replayed(t: TimelineState, log: Seq<Seq<Step>>) -> Result<TimelineState, CoreError>
    decreases log.len(),
{
    if log.len() == 0 {
        Ok(t)
    } else {
        match replayed(t, log.drop_last()) {
            Err(e) => Err(e),
            Ok(u) => match run(u, log.last()) {
                Err(e) => Err(e),
                Ok(x) => Ok(x.after),
            },
        }
    }
}

/// The timeline that a project holds.
pub open spec fn saved_state(
    snapshot: TimelineState,
    log: Seq<Seq<Step>>,
    cursor: Option<u64>,
) -> Result<TimelineState, CoreError> {
    match replayed(snapshot, log) {
        Err(e) => Err(e),
        Ok(t) => Ok(
            TimelineState {
                content: t.content,
                cursor: match cursor {
                    Some(c) => c,
                    None => t.cursor,
                },
            },
        ),
    }
}

proof fn lemma_log_replays(tree: TreeView, states: Seq<TimelineState>, i: int)
    requires
        tree.wf(),
        faithful(tree, states),
        0 <= i < tree.nodes.len(),
    ensures
        base_of(tree.nodes, i) is Some,
        base_of(tree.nodes, i)->Some_0.content.wf(),
        replayed(base_of(tree.nodes, i)->Some_0, log_of(tree.nodes, i)) matches Ok(t) && t.content
            == states[i].content,
    decreases i,
{
    assert(node_wf(tree.nodes, i));
    assert(state_holds(tree.nodes, states, i));
    if tree.nodes[i].snapshot is None {
        let p = tree.nodes[i].parent->Some_0;
        lemma_log_replays(tree, states, p);
        let log = log_of(tree.nodes, i);
        assert(log.drop_last() =~= log_of(tree.nodes, p));
        let base = base_of(tree.nodes, p)->Some_0;
        let t = replayed(base, log_of(tree.nodes, p))->Ok_0;
        assert(t == (TimelineState { content: states[p].content, cursor: t.cursor }));
        assert(run(t, log.last()) is Ok);
    }
}

/// A saved session reloads to the same timeline exactly, id cursor and all.
pub proof fn a_project_reloads_exactly(s: SessionView)
    requires
        s.history.wf(),
        faithful(s.history, s.states),
        s.timeline == s.states[s.history.current],
    ensures
        ({
            let base = base_of(s.history.nodes, s.history.current);
            let log = log_of(s.history.nodes, s.history.current);
            &&& base is Some
            &&& saved_state(base->Some_0, log, Some(s.timeline.cursor)) == Ok::<
                TimelineState,
                CoreError,
            >(s.timeline)
        }),
{
    lemma_log_replays(s.history, s.states, s.history.current);
}

/// Once the current state is pinned, a project needs no log.
pub proof fn a_save_point_needs_no_log(s: SessionView)
    requires
        s.history.wf(),
        s.history.nodes[s.history.current].snapshot is Some,
    ensures
        log_of(s.history.nodes, s.history.current).len() == 0,
        base_of(s.history.nodes, s.history.current)
            == s.history.nodes[s.history.current].snapshot,
{
}

impl ProjectFile {
    /// A session, compacted for saving.
    pub fn from_session(session: &Session) -> (p: Self)
        requires
            session.wf(),
        ensures
            p.version == FORMAT_VERSION,
            base_of(session.view().history.nodes, session.view().history.current) == Some(
                p.snapshot.state(),
            ),
            p.snapshot@.wf(),
            commands_view(p.log@) == log_of(
                session.view().history.nodes,
                session.view().history.current,
            ),
            p.id_cursor == Some(session.view().timeline.cursor),
            saved_state(p.snapshot.state(), commands_view(p.log@), p.id_cursor) == Ok::<
                TimelineState,
                CoreError,
            >(session.view().timeline),
    {
        proof {
            a_project_reloads_exactly(session.view());
        }
        let (snapshot, log) = session.history().compacted();
        let id_cursor = Some(session.timeline().id_cursor);
        ProjectFile { version: FORMAT_VERSION, snapshot, log, id_cursor }
    }

    /// The saved timeline: the log replayed on the snapshot.
    pub fn into_timeline(self) -> (r: Result<Timeline, ProjectError>)
        requires
            self.snapshot@.wf(),
        ensures
            match saved_state(self.snapshot.state(), commands_view(self.log@), self.id_cursor) {
                Ok(t) => r is Ok && r->Ok_0.state() == t && r->Ok_0@.wf(),
                Err(e) => r is Err && r->Err_0@ == ProjectErrorView::Unreplayable(
                    core_sentence(e),
                ),
            },
    {
        let ghost start = self.snapshot.state();
        let ghost all = commands_view(self.log@);
        let log = self.log;
        let cursor = self.id_cursor;
        let mut tl = self.snapshot;
        let mut i: usize = 0;
        assert(all.take(0) =~= Seq::<Seq<Step>>::empty());
        while i < log.len()
            invariant
                i <= log@.len(),
                all == commands_view(log@),
                all == commands_view(self.log@),
                start == self.snapshot.state(),
                cursor == self.id_cursor,
                tl@.wf(),
                replayed(start, all.take(i as int)) == Ok::<TimelineState, CoreError>(tl.state()),
            decreases log@.len() - i,
        {
            assert(all.take(i as int + 1).drop_last() =~= all.take(i as int));
            assert(all.take(i as int + 1).last() == log@[i as int]@);
            match log[i].apply(&mut tl) {
                Ok(_) => {},
                Err(e) => {
                    proof {
                        lemma_replay_fails(start, all, i as int + 1);
                    }
                    return Err(ProjectError::Unreplayable(e.user_message()));
                },
            }
            i = i + 1;
        }
        assert(all.take(i as int) =~= all);
        if let Some(c) = cursor {
            tl.id_cursor = c;
        }
        Ok(tl)
    }

    /// Opens a project: the saved state is the root of a fresh history.
    pub fn into_session(self) -> (r: Result<Session, ProjectError>)
        requires
            self.snapshot@.wf(),
        ensures
            match saved_state(self.snapshot.state(), commands_view(self.log@), self.id_cursor) {
                Ok(t) => {
                    &&& r is Ok
                    &&& r->Ok_0.wf()
                    &&& r->Ok_0.view() == opened(t)
                },
                Err(e) => r is Err && r->Err_0@ == ProjectErrorView::Unreplayable(
                    core_sentence(e),
                ),
            },
    {
        match self.into_timeline() {
            Ok(tl) => Ok(Session::new(tl)),
            Err(e) => Err(e),
        }
    }
}

proof fn lemma_replay_fails(t: TimelineState, log: Seq<Seq<Step>>, n: int)
    requires
        0 <= n <= log.len(),
        replayed(t, log.take(n)) is Err,
    ensures
        replayed(t, log) == replayed(t, log.take(n)),
    decreases log.len() - n,
{
    if n == log.len() {
        assert(log.take(n) =~= log);
    } else {
        assert(log.take(n + 1).drop_last() =~= log.take(n));
        lemma_replay_fails(t, log, n + 1);
    }
}

/// The version that a document says it is; one that says nothing is the oldest.
pub open spec fn document_version(v: Value) -> u32 {
    if members(v) is Some && members(v)->Some_0.contains_key("version"@) {
        match whole_number(members(v)->Some_0["version"@]) {
            Some(n) => if n > u32::MAX {
                u32::MAX
            } else {
                n as u32
            },
            None => 0,
        }
    } else {
        0
    }
}

/// Why a document cannot be brought up to date.
pub open spec fn migration_refusal(v: Value) -> Option<ProjectErrorView> {
    if document_version(v) > FORMAT_VERSION {
        Some(ProjectErrorView::TooNew(document_version(v)))
    } else if members(v) is None {
        Some(ProjectErrorView::Malformed("the top level of a project must be an object"@))
    } else if document_version(v) == 0 && !members(v)->Some_0.contains_key("snapshot"@) {
        Some(ProjectErrorView::Malformed("the project has no timeline in it"@))
    } else {
        None
    }
}

/// Whether `new` is `old` brought up to date: an oldest document is given an
/// empty log where it has none, and the current version.
pub open spec fn is_migrated(old_value: Value, new_value: Value) -> bool {
    let m = members(old_value)->Some_0;
    if document_version(old_value) == 0 {
        exists|log: Value, version: Value|
            #![trigger elements(log), whole_number(version)]
            {
                &&& elements(log) == Some(Seq::<Value>::empty())
                &&& whole_number(version) == Some(FORMAT_VERSION as u64)
                &&& members(new_value) == Some(
                    (if m.contains_key("log"@) {
                        m
                    } else {
                        m.insert("log"@, log)
                    }).insert("version"@, version),
                )
            }
    } else {
        new_value == old_value
    }
}

/// Brings an older document up to date.
pub fn migrate(value: Value) -> (r: Result<Value, ProjectError>)
    ensures
        match r {
            Ok(v) => migration_refusal(value) is None && is_migrated(value, v),
            Err(e) => migration_refusal(value) == Some(e@),
        },
{
    let mut value = value;
    let ghost before = value;
    let stated = match member(&value, "version") {
        Some(v) => as_number(v),
        None => None,
    };
    let version: u32 = match stated {
        Some(n) => if n > u32::MAX as u64 {
            u32::MAX
        } else {
            n as u32
        },
        None => 0,
    };
    if version > FORMAT_VERSION {
        return Err(ProjectError::TooNew(version));
    }
    if !is_object(&value) {
        return Err(
            ProjectError::Malformed("the top level of a project must be an object".to_owned()),
        );
    }
    if version == 0 {
        if member(&value, "snapshot").is_none() {
            return Err(ProjectError::Malformed("the project has no timeline in it".to_owned()));
        }
        let log = empty_list();
        let ghost added = log;
        if member(&value, "log").is_none() {
            set_member(&mut value, "log", log);
        }
        let current = number(FORMAT_VERSION);
        let ghost numbered = current;
        set_member(&mut value, "version", current);
        assert(elements(added) == Some(Seq::<Value>::empty()));
        assert(whole_number(numbered) == Some(FORMAT_VERSION as u64));
    }
    Ok(value)
}

/// Reads a document and brings it up to date. A text that is not JSON is
/// reported in the words of the parser.
pub fn read_document(text: &str) -> (r: Result<Value, ProjectError>)
    ensures
        match parsed(text@) {
            Err(reason) => r is Err && r->Err_0@ == ProjectErrorView::Malformed(reason),
            Ok(value) => match r {
                Ok(v) => migration_refusal(value) is None && is_migrated(value, v),
                Err(e) => migration_refusal(value) == Some(e@),
            },
        },
{
    match parse(text) {
        Ok(value) => migrate(value),
        Err(reason) => Err(ProjectError::Malformed(reason)),
    }
}

/// What was brought up to date says so, keeps its timeline, and has a log where
/// it had none; bringing it up to date again changes nothing.
pub proof fn migration_is_settled(old_value: Value, new_value: Value)
    requires
        migration_refusal(old_value) is None,
        is_migrated(old_value, new_value),
    ensures
        document_version(new_value) == FORMAT_VERSION,
        migration_refusal(new_value) is None,
        is_migrated(new_value, new_value),
        document_version(old_value) == 0 ==> {
            &&& members(new_value)->Some_0.contains_key("log"@)
            &&& members(new_value)->Some_0["snapshot"@] == members(old_value)->Some_0["snapshot"@]
        },
{
    reveal_strlit("log");
    reveal_strlit("version");
    reveal_strlit("snapshot");
    assert("snapshot"@.len() != "version"@.len());
    assert("snapshot"@.len() != "log"@.len());
    assert("log"@.len() != "version"@.len());
}

/// A document says its own version, and one that says none is the oldest. What
/// is newer than what is written here is refused, and by its version.
pub proof fn a_newer_document_is_refused(v: Value, n: u64)
    requires
        members(v) is Some,
        n <= u32::MAX,
    ensures
        !members(v)->Some_0.contains_key("version"@) ==> document_version(v) == 0,
        members(v)->Some_0.contains_key("version"@) && whole_number(
            members(v)->Some_0["version"@],
        ) == Some(n) ==> {
            &&& document_version(v) == n
            &&& n > 1 ==> migration_refusal(v) == Some(ProjectErrorView::TooNew(n as u32))
            &&& n == 1 ==> migration_refusal(v) is None
            &&& n == 0 ==> (migration_refusal(v) is None) == members(v)->Some_0.contains_key(
                "snapshot"@,
            )
        },
{
}

} // verus!
