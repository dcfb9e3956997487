//! One editable timeline and its history.
//!
//! The timeline is not handed out to be changed: every change goes through
//! [`Session::exec`], so undo, repeat, macros and the project file all see the
//! same log.
use vstd::prelude::*;
use vstd::string::*;

use crate::cmd::command::EditCommand;
use crate::cmd::command::Step;
use crate::cmd::command::an_edit_is_undone_by_its_inverse;
use crate::cmd::command::description;
use crate::cmd::command::repeated;
use crate::cmd::command::run;
use crate::cmd::error::CmdError;
use crate::cmd::error::CmdErrorView;
use crate::cmd::macros::MacroRecorder;
use crate::cmd::macros::MacroView;
use crate::cmd::undo::DEFAULT_SNAPSHOT_INTERVAL;
use crate::cmd::undo::EditView;
use crate::cmd::undo::NodeId;
use crate::cmd::undo::NodeView;
use crate::cmd::undo::TreeView;
use crate::cmd::undo::UndoEntry;
use crate::cmd::undo::UndoTree;
use crate::cmd::undo::faithful;
use crate::cmd::undo::goto_arrives_at_the_state;
use crate::cmd::undo::grown;
use crate::cmd::undo::is_row;
use crate::cmd::undo::leads;
use crate::cmd::undo::node_wf;
use crate::cmd::undo::recorded;
use crate::cmd::undo::redo_arrives_at_the_newest_branch;
use crate::cmd::undo::state_holds;
use crate::cmd::undo::undo_arrives_at_the_state_before;
use crate::cmd::undo::without_number;
use crate::model::Timeline;
use crate::model::TimelineState;

verus! {

/// An open timeline and everything that has been done to it.
pub struct Session {
    timeline: Timeline,
    history: UndoTree,
    /// The last edit, which can be repeated.
    last_edit: Option<EditCommand>,
    macros: MacroRecorder,
    /// The timeline in every state of the history.
    states: Ghost<Seq<TimelineState>>,
}

/// A session, as its contracts speak of it.
pub struct SessionView {
    pub timeline: TimelineState,
    pub history: TreeView,
    /// The timeline in every state of the history.
    pub states: Seq<TimelineState>,
    pub last_edit: Option<EditCommand>,
    pub macros: MacroView,
}

/// A session in another state of its history.
pub open spec fn moved(s: SessionView, to: int) -> SessionView {
    SessionView {
        timeline: s.states[to],
        history: TreeView { current: to, ..s.history },
        ..s
    }
}

proof fn lemma_recording_is_faithful(
    tree: TreeView,
    states: Seq<TimelineState>,
    steps: Seq<Step>,
    command: EditCommand,
    inverse: EditCommand,
)
    requires
        tree.wf(),
        faithful(tree, states),
        run(states[tree.current], steps) is Ok,
        command@ == run(states[tree.current], steps)->Ok_0.applied,
        inverse@ == run(states[tree.current], steps)->Ok_0.inverse,
    ensures
        ({
            let after = run(states[tree.current], steps)->Ok_0.after;
            faithful(recorded(tree, command, inverse, after), states.push(after))
        }),
{
    let t = states[tree.current];
    let after = run(t, steps)->Ok_0.after;
    let next = recorded(tree, command, inverse, after);
    let longer = states.push(after);
    assert(state_holds(tree.nodes, states, tree.current));
    assert forall|i: int| 0 <= i < longer.len() implies #[trigger] state_holds(
        next.nodes,
        longer,
        i,
    ) by {
        if i < states.len() {
            assert(state_holds(tree.nodes, states, i));
            assert(node_wf(tree.nodes, i));
            assert(longer[i] == states[i]);
            if i > 0 {
                let p = tree.nodes[i].parent->Some_0;
                assert(longer[p] == states[p]);
            }
        } else {
            an_edit_is_undone_by_its_inverse(t, steps, 0);
            assert(longer[tree.current] == t);
            assert forall|c: u64|
                (#[trigger] run(TimelineState { content: t.content, cursor: c }, command@)) matches Ok(x)
                    && x.after == (TimelineState { content: after.content, cursor: c }) by {
                an_edit_is_undone_by_its_inverse(t, steps, c);
            }
            assert forall|c: u64|
                (#[trigger] run(TimelineState { content: after.content, cursor: c }, inverse@)) matches Ok(x)
                    && x.after == (TimelineState { content: t.content, cursor: c }) by {
                an_edit_is_undone_by_its_inverse(t, steps, c);
            }
            assert(leads(t, command@, after));
            assert(leads(after, inverse@, t));
        }
    }
}

/// What running a command does to a session: it is recorded, or it is rejected
/// and nothing changes.
pub open spec fn exec_outcome(
    before: SessionView,
    command: EditCommand,
    steps: Seq<Step>,
    after: SessionView,
    r: Result<String, CmdError>,
) -> bool {
    match run(before.timeline, steps) {
        Ok(e) => {
            &&& r is Ok && r->Ok_0@ == description(command)
            &&& after.timeline == e.after
            &&& after.states == before.states.push(e.after)
            &&& after.history == grown(
                before.history,
                EditView { command: e.applied, inverse: e.inverse, label: description(command) },
                e.after,
            )
            &&& after.last_edit is Some && after.last_edit->Some_0@ == steps
            &&& description(after.last_edit->Some_0) == description(command)
            &&& after.macros == before.macros
        },
        Err(e) => r is Err && r->Err_0@ == CmdErrorView::Core(e) && after == before,
    }
}

/// A session in which nothing has been done yet.
pub open spec fn opened(t: TimelineState) -> SessionView {
    SessionView {
        timeline: t,
        history: TreeView {
            nodes: seq![
                NodeView {
                    parent: None,
                    children: Seq::empty(),
                    edit: None,
                    snapshot: Some(t),
                    id_cursor: t.cursor,
                },
            ],
            current: 0,
            interval: DEFAULT_SNAPSHOT_INTERVAL,
        },
        states: seq![t],
        last_edit: None,
        macros: MacroView { registers: Map::empty(), recording: None },
    }
}

impl Session {
    pub closed spec fn view(self) -> SessionView {
        SessionView {
            timeline: self.timeline.state(),
            history: self.history.view(),
            states: self.states@,
            last_edit: self.last_edit,
            macros: self.macros.view(),
        }
    }

    /// The history is faithful, and the timeline is in its current state.
    pub open spec fn wf(self) -> bool {
        &&& self.macros_wf()
        &&& self.view().history.wf()
        &&& faithful(self.view().history, self.view().states)
        &&& self.view().timeline == self.view().states[self.view().history.current]
        &&& self.view().timeline.content.wf()
    }

    pub closed spec fn macros_wf(self) -> bool {
        self.macros.wf()
    }

    pub fn new(timeline: Timeline) -> (s: Self)
        requires
            timeline@.wf(),
        ensures
            s.wf(),
            s.view() == opened(timeline.state()),
    {
        let ghost first = seq![timeline.state()];
        let states: Ghost<Seq<TimelineState>> = Ghost(first);
        let history = UndoTree::new(timeline.clone());
        let s = Session {
            timeline,
            history,
            last_edit: None,
            macros: MacroRecorder::new(),
            states,
        };
        proof {
            assert(state_holds(s.view().history.nodes, s.view().states, 0));
        }
        s
    }

    pub fn timeline(&self) -> (t: &Timeline)
        ensures
            t.state() == self.view().timeline,
    {
        &self.timeline
    }

    pub fn history(&self) -> (h: &UndoTree)
        ensures
            h.view() == self.view().history,
    {
        &self.history
    }

    pub fn macros(&self) -> (m: &MacroRecorder)
        ensures
            m.view() == self.view().macros,
            self.wf() ==> m.wf(),
    {
        &self.macros
    }

    /// The macro recorder, to be changed in place.
    pub fn macros_mut(&mut self) -> (m: &mut MacroRecorder)
        requires
            old(self).wf(),
        ensures
            m.view() == old(self).view().macros,
            m.wf(),
            final(self).view() == (SessionView {
                macros: final(m).view(),
                ..old(self).view()
            }),
            final(m).wf() ==> final(self).wf(),
    {
        &mut self.macros
    }

    /// Keeps a whole timeline every `n` changes.
    pub fn set_snapshot_interval(&mut self, n: u64)
        requires
            old(self).wf(),
        ensures
            final(self).wf(),
            final(self).view() == (SessionView {
                history: TreeView { interval: n, ..old(self).view().history },
                ..old(self).view()
            }),
    {
        self.history.set_snapshot_interval(n);
        proof {
            assert forall|i: int| 0 <= i < self.view().states.len() implies #[trigger] state_holds(
                self.view().history.nodes,
                self.view().states,
                i,
            ) by {
                assert(state_holds(
                    old(self).view().history.nodes,
                    old(self).view().states,
                    i,
                ));
            }
        }
    }

    /// Runs a command and records it. A rejected command changes nothing and
    /// never enters the log.
    pub fn exec(&mut self, command: &EditCommand) -> (r: Result<String, CmdError>)
        requires
            old(self).wf(),
        ensures
            final(self).wf(),
            exec_outcome(old(self).view(), *command, command@, final(self).view(), r),
    {
        let ghost before = self.view();
        let effect = match command.apply(&mut self.timeline) {
            Ok(e) => e,
            Err(e) => {
                return Err(e);
            },
        };
        let label = effect.applied.describe();
        let ghost after = self.timeline.state();
        let ghost pinned = effect.applied;
        let ghost undone = effect.inverse;
        self.history.record(effect.applied, effect.inverse, &self.timeline);
        self.last_edit = Some(command.clone());
        proof {
            self.states@ = before.states.push(after);
            lemma_recording_is_faithful(
                before.history,
                before.states,
                command@,
                pinned,
                undone,
            );
        }
        Ok(label)
    }

    /// Runs the last edit again; a clip that it makes is a new one.
    pub fn repeat(&mut self) -> (r: Result<String, CmdError>)
        requires
            old(self).wf(),
        ensures
            final(self).wf(),
            match old(self).view().last_edit {
                None => r is Err && r->Err_0@ == CmdErrorView::NothingToRepeat && final(self).view()
                    == old(self).view(),
                Some(last) => exists|again: EditCommand|
                    again@ == repeated(last) && description(again) == description(last)
                        && #[trigger] exec_outcome(
                        old(self).view(),
                        again,
                        repeated(last),
                        final(self).view(),
                        r,
                    ),
            },
    {
        let again = match &self.last_edit {
            Some(last) => last.for_repeat(),
            None => {
                return Err(CmdError::NothingToRepeat);
            },
        };
        self.exec(&again)
    }

    /// The command that would be repeated.
    pub fn last_edit(&self) -> (c: Option<&EditCommand>)
        ensures
            match c {
                Some(c) => self.view().last_edit == Some(*c),
                None => self.view().last_edit is None,
            },
    {
        self.last_edit.as_ref()
    }

    /// Goes back to the state before this one.
    pub fn undo(&mut self) -> (r: Result<String, CmdError>)
        requires
            old(self).wf(),
        ensures
            final(self).wf(),
            ({
                let before = old(self).view();
                let here = before.history.nodes[before.history.current];
                if before.history.current == 0 {
                    &&& r is Err && r->Err_0@ == CmdErrorView::NothingToUndo
                    &&& final(self).view() == before
                } else {
                    &&& r is Ok && r->Ok_0@ == here.edit->Some_0.label
                    &&& final(self).view() == moved(before, here.parent->Some_0)
                }
            }),
    {
        let ghost before = self.view();
        let r = self.history.undo(&mut self.timeline);
        proof {
            if before.history.current > 0 {
                assert(node_wf(before.history.nodes, before.history.current));
                undo_arrives_at_the_state_before(
                    before.history,
                    before.states,
                    self.history.view(),
                    self.timeline.state(),
                    r,
                );
            }
        }
        r
    }

    /// Goes forward to the newest state after this one.
    pub fn redo(&mut self) -> (r: Result<String, CmdError>)
        requires
            old(self).wf(),
        ensures
            final(self).wf(),
            ({
                let before = old(self).view();
                let children = before.history.nodes[before.history.current].children;
                if children.len() == 0 {
                    &&& r is Err && r->Err_0@ == CmdErrorView::NothingToRedo
                    &&& final(self).view() == before
                } else {
                    &&& r is Ok && r->Ok_0@
                        == before.history.nodes[children.last()].edit->Some_0.label
                    &&& final(self).view() == moved(before, children.last())
                }
            }),
    {
        let ghost before = self.view();
        let r = self.history.redo(&mut self.timeline);
        proof {
            let here = before.history.nodes[before.history.current];
            if here.children.len() > 0 {
                assert(node_wf(before.history.nodes, before.history.current));
                assert(here.children[here.children.len() - 1] == here.children.last());
                redo_arrives_at_the_newest_branch(
                    before.history,
                    before.states,
                    self.history.view(),
                    self.timeline.state(),
                    r,
                );
            }
        }
        r
    }

    /// Goes to the state made before this one, whatever its branch.
    pub fn time_travel_back(&mut self) -> (r: Result<u64, CmdError>)
        requires
            old(self).wf(),
        ensures
            final(self).wf(),
            ({
                let before = old(self).view();
                let to = before.history.current - 1;
                if to < 0 {
                    &&& r is Err && r->Err_0@ == CmdErrorView::NothingToUndo
                    &&& final(self).view() == before
                } else {
                    r is Ok && r->Ok_0 == to && final(self).view() == moved(before, to)
                }
            }),
    {
        let ghost before = self.view();
        let r = self.history.time_travel_back(&mut self.timeline);
        proof {
            if before.history.current > 0 {
                goto_arrives_at_the_state(
                    before.history,
                    before.states,
                    before.history.current - 1,
                    self.history.view(),
                    self.timeline.state(),
                    without_number(r),
                );
            }
        }
        r
    }

    /// Goes to the state made after this one, whatever its branch.
    pub fn time_travel_forward(&mut self) -> (r: Result<u64, CmdError>)
        requires
            old(self).wf(),
        ensures
            final(self).wf(),
            ({
                let before = old(self).view();
                let to = before.history.current + 1;
                if to >= before.history.nodes.len() {
                    &&& r is Err && r->Err_0@ == CmdErrorView::NothingToRedo
                    &&& final(self).view() == before
                } else {
                    r is Ok && r->Ok_0 == to && final(self).view() == moved(before, to)
                }
            }),
    {
        let ghost before = self.view();
        let r = self.history.time_travel_forward(&mut self.timeline);
        proof {
            if before.history.current + 1 < before.history.nodes.len() {
                goto_arrives_at_the_state(
                    before.history,
                    before.states,
                    before.history.current + 1,
                    self.history.view(),
                    self.timeline.state(),
                    without_number(r),
                );
            }
        }
        r
    }

    /// Goes to any state of the history.
    pub fn goto(&mut self, node: NodeId) -> (r: Result<(), CmdError>)
        requires
            old(self).wf(),
        ensures
            final(self).wf(),
            ({
                let before = old(self).view();
                if node.0 < before.history.nodes.len() {
                    r is Ok && final(self).view() == moved(before, node.0 as int)
                } else {
                    r is Err && r->Err_0@ is ReplayFailed && final(self).view() == before
                }
            }),
    {
        let ghost before = self.view();
        let r = self.history.goto(node, &mut self.timeline);
        proof {
            if node.0 < before.history.nodes.len() {
                goto_arrives_at_the_state(
                    before.history,
                    before.states,
                    node.0 as int,
                    self.history.view(),
                    self.timeline.state(),
                    r,
                );
            }
        }
        r
    }

    /// The changes, in the order in which they were made.
    pub fn undolist(&self) -> (rows: Vec<UndoEntry>)
        requires
            self.wf(),
        ensures
            rows@.len() == self.view().history.nodes.len() - 1,
            forall|k: int|
                0 <= k < rows@.len() ==> is_row(#[trigger] rows@[k], self.view().history, k + 1),
    {
        self.history.undolist()
    }

    /// Pins the current state, as saving does.
    pub fn mark_saved(&mut self)
        requires
            old(self).wf(),
        ensures
            final(self).wf(),
            ({
                let before = old(self).view();
                let here = before.history.nodes[before.history.current];
                final(self).view() == (SessionView {
                    history: TreeView {
                        nodes: before.history.nodes.update(
                            before.history.current,
                            NodeView { snapshot: Some(before.timeline), ..here },
                        ),
                        ..before.history
                    },
                    ..before
                })
            }),
    {
        let ghost before = self.view();
        self.history.snapshot_now(&self.timeline);
        proof {
            assert forall|i: int| 0 <= i < self.view().states.len() implies #[trigger] state_holds(
                self.view().history.nodes,
                self.view().states,
                i,
            ) by {
                assert(state_holds(before.history.nodes, before.states, i));
            }
        }
    }
}

/// Undoing an edit restores the timeline exactly, id cursor and all.
pub proof fn undo_restores_the_timeline(
    before: SessionView,
    command: EditCommand,
    done: SessionView,
    r: Result<String, CmdError>,
)
    requires
        before.history.wf(),
        faithful(before.history, before.states),
        before.timeline == before.states[before.history.current],
        exec_outcome(before, command, command@, done, r),
        r is Ok,
    ensures
        done.history.current > 0,
        ({
            let back = moved(done, done.history.nodes[done.history.current].parent->Some_0);
            back.timeline == before.timeline && back.history.current == before.history.current
        }),
{
    assert(done.history.nodes[done.history.current] == done.history.nodes.last());
}

/// A refused command leaves a session as it was.
pub proof fn a_refused_command_changes_nothing(
    before: SessionView,
    command: EditCommand,
    steps: Seq<Step>,
    after: SessionView,
    r: Result<String, CmdError>,
)
    requires
        exec_outcome(before, command, steps, after, r),
        r is Err,
    ensures
        after == before,
{
}

/// A command that ran is the one that is repeated, whatever is undone
/// afterwards, and it becomes the newest state of the history.
pub proof fn a_command_is_recorded(
    before: SessionView,
    command: EditCommand,
    after: SessionView,
    r: Result<String, CmdError>,
    to: int,
)
    requires
        before.history.wf(),
        before.states.len() == before.history.nodes.len(),
        exec_outcome(before, command, command@, after, r),
        r is Ok,
    ensures
        after.history.nodes.len() == before.history.nodes.len() + 1,
        after.history.current == after.history.nodes.len() - 1,
        after.states[after.history.current] == after.timeline,
        moved(after, to).last_edit is Some,
        moved(after, to).last_edit->Some_0@ == command@,
        moved(after, to).history.nodes == after.history.nodes,
        moved(after, to).macros == before.macros,
        forall|i: int|
            0 <= i < before.states.len() ==> moved(after, to).states[i] == #[trigger] before.states[i],
{
}

/// A session begins with nothing done: there is one state, which is the
/// timeline it was opened with, nothing to undo, redo or repeat, and nothing
/// recorded.
pub proof fn a_new_session_has_done_nothing(t: TimelineState)
    requires
        t.content.wf(),
    ensures
        ({
            let s = opened(t);
            &&& s.history.wf()
            &&& faithful(s.history, s.states)
            &&& s.timeline == t
            &&& s.states[s.history.current] == t
            &&& s.history.nodes.len() == 1
            &&& s.history.current == 0
            &&& s.history.nodes[0].children.len() == 0
            &&& s.history.interval == 100
            &&& s.last_edit is None
            &&& s.macros.recording is None
            &&& s.macros.registers.dom() == Set::<char>::empty()
        }),
{
    let s = opened(t);
    assert(node_wf(s.history.nodes, 0));
    assert(state_holds(s.history.nodes, s.states, 0));
    assert(s.macros.registers.dom() =~= Set::<char>::empty());
}

} // verus!
