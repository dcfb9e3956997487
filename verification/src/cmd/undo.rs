//! The undo tree.
//!
//! History branches: undoing and editing again keeps the abandoned branch. A
//! node holds the command as executed and its inverse, and every so often a
//! whole timeline, which bounds what a wrong inverse can cost.
use vstd::prelude::*;
use vstd::string::*;

use crate::cmd::command::EditCommand;
use crate::cmd::command::Step;
use crate::cmd::command::description;
use crate::cmd::command::run;
use crate::cmd::error::CmdError;
use crate::cmd::error::CmdErrorView;
use crate::cmd::error::CoreError;
use crate::cmd::error::cmd_sentence;
use crate::cmd::error::core_sentence;
use crate::model::Timeline;
use crate::model::TimelineState;
use crate::text::decimal;
use crate::text::push_decimal;

verus! {

/// A state in the history. The first is the root.
#[derive(Clone, Copy, Debug, PartialEq, Eq, PartialOrd, Ord, Hash, Structural)]
pub struct NodeId(pub usize);

/// A whole timeline is kept every so many changes.
pub const DEFAULT_SNAPSHOT_INTERVAL: u64 = 100;

#[derive(Debug)]
struct Node {
    parent: Option<NodeId>,
    children: Vec<NodeId>,
    edit: Option<Edit>,
    snapshot: Option<Timeline>,
    /// The id cursor in this state.
    id_cursor: u64,
}

#[derive(Debug)]
struct Edit {
    command: EditCommand,
    inverse: EditCommand,
}

/// One row of the list of changes.
#[derive(Debug, PartialEq, Eq)]
pub struct UndoEntry {
    pub seq: u64,
    pub node: NodeId,
    pub description: String,
    pub current: bool,
    /// How many changes deep the state is.
    pub depth: usize,
}

/// The history of one timeline.
#[derive(Debug)]
pub struct UndoTree {
    nodes: Vec<Node>,
    current: NodeId,
    snapshot_interval: u64,
}

/// The change that leads into a state.
pub struct EditView {
    pub command: Seq<Step>,
    pub inverse: Seq<Step>,
    pub label: Seq<char>,
}

/// One state of the history.
pub struct NodeView {
    pub parent: Option<int>,
    pub children: Seq<int>,
    pub edit: Option<EditView>,
    pub snapshot: Option<TimelineState>,
    pub id_cursor: u64,
}

/// The whole history.
pub struct TreeView {
    pub nodes: Seq<NodeView>,
    pub current: int,
    pub interval: u64,
}

spec fn node_view(n: Node) -> NodeView {
    NodeView {
        parent: match n.parent {
            Some(p) => Some(p.0 as int),
            None => None,
        },
        children: Seq::new(n.children@.len(), |i: int| n.children@[i].0 as int),
        edit: match n.edit {
            Some(e) => Some(
                EditView {
                    command: e.command@,
                    inverse: e.inverse@,
                    label: description(e.command),
                },
            ),
            None => None,
        },
        snapshot: match n.snapshot {
            Some(t) => Some(t.state()),
            None => None,
        },
        id_cursor: n.id_cursor,
    }
}

/// A node among others: its parent comes before it, its children are the nodes
/// that name it, newest last, and only the root has no change that leads to it.
pub open spec fn node_wf(nodes: Seq<NodeView>, i: int) -> bool {
    let n = nodes[i];
    &&& i == 0 ==> n.parent is None && n.edit is None && n.snapshot is Some
    &&& i > 0 ==> n.parent is Some && 0 <= n.parent->Some_0 < i && n.edit is Some
    &&& n.snapshot matches Some(s) ==> s.content.wf()
    &&& forall|k: int|
        0 <= k < n.children.len() ==> i < (#[trigger] n.children[k]) < nodes.len()
            && nodes[n.children[k]].parent == Some(i)
    &&& forall|j: int, k: int|
        0 <= j < k < n.children.len() ==> n.children[j] < n.children[k]
}

impl TreeView {
    pub open spec fn wf(self) -> bool {
        &&& 0 <= self.current < self.nodes.len()
        &&& forall|i: int| 0 <= i < self.nodes.len() ==> #[trigger] node_wf(self.nodes, i)
        &&& forall|i: int|
            0 < i < self.nodes.len() ==> (#[trigger] self.nodes[i]).parent is Some
                && self.nodes[self.nodes[i].parent->Some_0].children.contains(i)
    }
}

/// A state as it is once arrived at: its snapshot where it has one, and
/// otherwise what is there with the id cursor of the state.
pub open spec fn settled(n: NodeView, t: TimelineState) -> TimelineState {
    match n.snapshot {
        Some(s) => s,
        None => TimelineState { content: t.content, cursor: n.id_cursor },
    }
}

/// A state and the states above it, up to the root.
pub open spec fn path(nodes: Seq<NodeView>, i: int) -> Seq<int>
    decreases i,
{
    match nodes[i].parent {
        Some(p) => if 0 <= p < i {
            seq![i] + path(nodes, p)
        } else {
            seq![i]
        },
        None => seq![i],
    }
}

/// The first place on `up` that is also on `down`.
pub open spec fn meeting(up: Seq<int>, down: Seq<int>) -> int
    decreases up.len(),
{
    if up.len() == 0 {
        0
    } else if down.contains(up[0]) {
        up[0]
    } else {
        meeting(up.drop_first(), down)
    }
}

/// Undoing the states on a path until `stop`.
pub open spec fn climb(nodes: Seq<NodeView>, up: Seq<int>, stop: int, t: TimelineState) -> Option<
    TimelineState,
>
    decreases up.len(),
{
    if up.len() == 0 || up[0] == stop {
        Some(t)
    } else {
        match nodes[up[0]].edit {
            None => None,
            Some(e) => match run(t, e.inverse) {
                Err(_) => None,
                Ok(x) => climb(nodes, up.drop_first(), stop, x.after),
            },
        }
    }
}

/// Redoing the states on a path, from `stop` back to its start.
pub open spec fn descend(nodes: Seq<NodeView>, down: Seq<int>, stop: int, t: TimelineState) -> Option<
    TimelineState,
>
    decreases down.len(),
{
    if down.len() == 0 || down[0] == stop {
        Some(t)
    } else {
        match descend(nodes, down.drop_first(), stop, t) {
            None => None,
            Some(u) => match nodes[down[0]].edit {
                None => None,
                Some(e) => match run(u, e.command) {
                    Err(_) => None,
                    Ok(x) => Some(x.after),
                },
            },
        }
    }
}

/// Walking from one state to another: up to where the paths meet, then down.
pub open spec fn walked(nodes: Seq<NodeView>, from: int, to: int, t: TimelineState) -> Option<
    TimelineState,
> {
    let up = path(nodes, from);
    let down = path(nodes, to);
    let stop = meeting(up, down);
    match climb(nodes, up, stop, t) {
        None => None,
        Some(u) => descend(nodes, down, stop, u),
    }
}

/// A state replayed from the nearest snapshot above it.
pub open spec fn rebuilt(nodes: Seq<NodeView>, i: int) -> Result<TimelineState, CoreError>
    decreases i,
{
    match nodes[i].snapshot {
        Some(s) => Ok(s),
        None => match nodes[i].parent {
            Some(p) => if 0 <= p < i && nodes[i].edit is Some {
                match rebuilt(nodes, p) {
                    Err(e) => Err(e),
                    Ok(t) => match run(t, nodes[i].edit->Some_0.command) {
                        Err(e) => Err(e),
                        Ok(x) => Ok(x.after),
                    },
                }
            } else {
                Err(CoreError::OutOfIds)
            },
            None => Err(CoreError::OutOfIds),
        },
    }
}

/// How many changes deep a state is.
pub open spec fn depth_of(nodes: Seq<NodeView>, i: int) -> nat {
    (path(nodes, i).len() - 1) as nat
}

/// The commands from the nearest snapshot down to a state.
pub open spec fn log_of(nodes: Seq<NodeView>, i: int) -> Seq<Seq<Step>>
    decreases i,
{
    match nodes[i].snapshot {
        Some(_) => Seq::empty(),
        None => match nodes[i].parent {
            Some(p) => if 0 <= p < i && nodes[i].edit is Some {
                log_of(nodes, p).push(nodes[i].edit->Some_0.command)
            } else {
                Seq::empty()
            },
            None => Seq::empty(),
        },
    }
}

/// The nearest snapshot at or above a state.
pub open spec fn base_of(nodes: Seq<NodeView>, i: int) -> Option<TimelineState>
    decreases i,
{
    match nodes[i].snapshot {
        Some(s) => Some(s),
        None => match nodes[i].parent {
            Some(p) => if 0 <= p < i {
                base_of(nodes, p)
            } else {
                None
            },
            None => None,
        },
    }
}

/// What a failed replay is reported as.
pub open spec fn drifted(e: CoreError) -> CmdErrorView {
    CmdErrorView::ReplayFailed(core_sentence(e))
}

/// The result of a step along the tree: either the state `to` is arrived at,
/// or the reason why not, with nothing changed.
pub open spec fn step_outcome(
    before: TreeView,
    t: TimelineState,
    steps: Seq<Step>,
    to: int,
    label: Seq<char>,
    after: TreeView,
    u: TimelineState,
    r: Result<String, CmdError>,
) -> bool {
    match run(t, steps) {
        Ok(x) => {
            &&& r is Ok && r->Ok_0@ == label
            &&& after == (TreeView { current: to, ..before })
            &&& u == settled(before.nodes[to], x.after)
        },
        Err(e) => {
            &&& r is Err && r->Err_0@ == drifted(e)
            &&& after == before
            &&& u == t
        },
    }
}

/// What undoing does.
pub open spec fn undo_outcome(
    before: TreeView,
    t: TimelineState,
    after: TreeView,
    u: TimelineState,
    r: Result<String, CmdError>,
) -> bool {
    let n = before.nodes[before.current];
    if before.current == 0 {
        r is Err && r->Err_0@ == CmdErrorView::NothingToUndo && after == before && u == t
    } else {
        step_outcome(
            before,
            t,
            n.edit->Some_0.inverse,
            n.parent->Some_0,
            n.edit->Some_0.label,
            after,
            u,
            r,
        )
    }
}

/// What redoing does: it follows the branch made last.
pub open spec fn redo_outcome(
    before: TreeView,
    t: TimelineState,
    after: TreeView,
    u: TimelineState,
    r: Result<String, CmdError>,
) -> bool {
    let n = before.nodes[before.current];
    if n.children.len() == 0 {
        r is Err && r->Err_0@ == CmdErrorView::NothingToRedo && after == before && u == t
    } else {
        let child = n.children.last();
        let e = before.nodes[child].edit->Some_0;
        step_outcome(before, t, e.command, child, e.label, after, u, r)
    }
}

/// What going to a state does: nothing where it is the current one; otherwise
/// walking there, or rebuilding it where a step of the way fails.
pub open spec fn goto_outcome(
    before: TreeView,
    t: TimelineState,
    target: int,
    after: TreeView,
    u: TimelineState,
    r: Result<(), CmdError>,
) -> bool {
    if target >= before.nodes.len() {
        &&& r is Err && r->Err_0@ == CmdErrorView::ReplayFailed(
            "state "@ + decimal(target as nat) + " is not in the history"@,
        )
        &&& after == before
        &&& u == t
    } else if target == before.current {
        r is Ok && after == before && u == t
    } else {
        match walked(before.nodes, before.current, target, t) {
            Some(x) => {
                &&& r is Ok
                &&& after == (TreeView { current: target, ..before })
                &&& u == settled(before.nodes[target], x)
            },
            None => match rebuilt(before.nodes, target) {
                Ok(x) => {
                    &&& r is Ok
                    &&& after == (TreeView { current: target, ..before })
                    &&& u == settled(before.nodes[target], x)
                },
                Err(e) => r is Err && r->Err_0@ == drifted(e) && after == before && u == t,
            },
        }
    }
}

proof fn lemma_path(nodes: Seq<NodeView>, i: int)
    requires
        forall|k: int| 0 <= k < nodes.len() ==> #[trigger] node_wf(nodes, k),
        0 <= i < nodes.len(),
    ensures
        path(nodes, i).len() > 0,
        path(nodes, i)[0] == i,
        path(nodes, i).last() == 0,
        forall|k: int|
            0 <= k < path(nodes, i).len() ==> 0 <= (#[trigger] path(nodes, i)[k]) <= i,
        forall|k: int|
            0 <= k < path(nodes, i).len() - 1 ==> path(nodes, i)[k] > 0 && nodes[#[trigger] path(
                nodes,
                i,
            )[k]].parent == Some(path(nodes, i)[k + 1]),
        path(nodes, i).len() <= i + 1,
    decreases i,
{
    assert(node_wf(nodes, i));
    if i > 0 {
        let p = nodes[i].parent->Some_0;
        lemma_path(nodes, p);
        let rest = path(nodes, p);
        let all = path(nodes, i);
        assert(all =~= seq![i] + rest);
        assert(all.last() == rest.last());
        assert forall|k: int| 0 <= k < all.len() implies 0 <= (#[trigger] all[k]) <= i by {
            if k > 0 {
                assert(all[k] == rest[k - 1]);
            }
        }
        assert forall|k: int| 0 <= k < all.len() - 1 implies all[k] > 0 && nodes[#[trigger] all[k]].parent
            == Some(all[k + 1]) by {
            if k > 0 {
                assert(all[k] == rest[k - 1]);
                assert(all[k + 1] == rest[k]);
            } else {
                assert(all[1] == rest[0]);
            }
        }
    }
}

proof fn lemma_meeting(up: Seq<int>, down: Seq<int>)
    requires
        exists|k: int| 0 <= k < up.len() && down.contains(#[trigger] up[k]),
    ensures
        up.contains(meeting(up, down)),
        down.contains(meeting(up, down)),
    decreases up.len(),
{
    if up.len() > 0 {
        if down.contains(up[0]) {
            assert(up[0] == meeting(up, down));
        } else {
            let k = choose|k: int| 0 <= k < up.len() && down.contains(#[trigger] up[k]);
            assert(up.drop_first()[k - 1] == up[k]);
            lemma_meeting(up.drop_first(), down);
            let m = meeting(up.drop_first(), down);
            let j = choose|j: int| 0 <= j < up.drop_first().len() && up.drop_first()[j] == m;
            assert(up[j + 1] == m);
        }
    }
}

/// The history is faithful to `states`: each state is what its change makes of
/// the state before it, its inverse leads back, and its snapshot is that state.
pub open spec fn faithful(tree: TreeView, states: Seq<TimelineState>) -> bool {
    &&& states.len() == tree.nodes.len()
    &&& forall|i: int| 0 <= i < states.len() ==> #[trigger] state_holds(tree.nodes, states, i)
}

/// What the state `i` has to do with the state before it.
pub open spec fn state_holds(nodes: Seq<NodeView>, states: Seq<TimelineState>, i: int) -> bool {
    let n = nodes[i];
    &&& states[i].content.wf()
    &&& n.id_cursor == states[i].cursor
    &&& n.snapshot matches Some(s) ==> s == states[i]
    &&& i > 0 ==> leads(states[n.parent->Some_0], n.edit->Some_0.command, states[i]) && leads(
        states[i],
        n.edit->Some_0.inverse,
        states[n.parent->Some_0],
    )
}

/// Steps lead from one state's contents to another's without making an id.
pub open spec fn leads(a: TimelineState, steps: Seq<Step>, b: TimelineState) -> bool {
    forall|c: u64|
        (#[trigger] run(TimelineState { content: a.content, cursor: c }, steps)) matches Ok(x)
            && x.after == (TimelineState { content: b.content, cursor: c })
}

/// Undoing in a faithful history arrives exactly at the state before.
pub proof fn undo_arrives_at_the_state_before(
    before: TreeView,
    states: Seq<TimelineState>,
    after: TreeView,
    u: TimelineState,
    r: Result<String, CmdError>,
)
    requires
        before.wf(),
        faithful(before, states),
        before.current > 0,
        undo_outcome(before, states[before.current], after, u, r),
    ensures
        r is Ok,
        after.current == before.nodes[before.current].parent->Some_0,
        after.nodes == before.nodes,
        u == states[after.current],
{
    let i = before.current;
    assert(node_wf(before.nodes, i));
    assert(state_holds(before.nodes, states, i));
    let p = before.nodes[i].parent->Some_0;
    assert(state_holds(before.nodes, states, p));
    let t = states[i];
    assert(t == (TimelineState { content: t.content, cursor: t.cursor }));
}

/// Redoing in a faithful history arrives exactly at the newest state after.
pub proof fn redo_arrives_at_the_newest_branch(
    before: TreeView,
    states: Seq<TimelineState>,
    after: TreeView,
    u: TimelineState,
    r: Result<String, CmdError>,
)
    requires
        before.wf(),
        faithful(before, states),
        before.nodes[before.current].children.len() > 0,
        redo_outcome(before, states[before.current], after, u, r),
    ensures
        r is Ok,
        after.current == before.nodes[before.current].children.last(),
        forall|i: int|
            0 <= i < before.nodes.len() && (#[trigger] before.nodes[i]).parent == Some(
                before.current,
            ) ==> i <= after.current,
        after.nodes == before.nodes,
        u == states[after.current],
{
    let i = before.current;
    assert(node_wf(before.nodes, i));
    let n = before.nodes[i];
    let last = n.children.len() - 1;
    let child = n.children[last];
    assert(i < child < before.nodes.len());
    assert(state_holds(before.nodes, states, child));
    assert(state_holds(before.nodes, states, i));
    let t = states[i];
    assert(t == (TimelineState { content: t.content, cursor: t.cursor }));
    assert forall|k: int| 0 <= k < before.nodes.len() && (#[trigger] before.nodes[k]).parent == Some(
        before.current,
    ) implies k <= after.current by {
        assert(node_wf(before.nodes, k));
        assert(before.nodes[k].parent is Some);
        assert(n.children.contains(k));
        let j = choose|j: int| 0 <= j < n.children.len() && n.children[j] == k;
        if j < last {
            assert(n.children[j] < n.children[last]);
        }
    }
}

proof fn lemma_climb(
    tree: TreeView,
    states: Seq<TimelineState>,
    up: Seq<int>,
    stop: int,
    t: TimelineState,
)
    requires
        tree.wf(),
        faithful(tree, states),
        up.len() > 0,
        up.contains(stop),
        forall|k: int| 0 <= k < up.len() ==> 0 <= (#[trigger] up[k]) < tree.nodes.len(),
        forall|k: int|
            0 <= k < up.len() - 1 ==> up[k] > 0 && tree.nodes[#[trigger] up[k]].parent == Some(
                up[k + 1],
            ),
        t.content == states[up[0]].content,
    ensures
        climb(tree.nodes, up, stop, t) == Some(
            TimelineState { content: states[stop].content, cursor: t.cursor },
        ),
    decreases up.len(),
{
    if up[0] == stop {
        assert(t == (TimelineState { content: states[stop].content, cursor: t.cursor }));
    } else {
        let k = choose|k: int| 0 <= k < up.len() && up[k] == stop;
        assert(k > 0);
        let i = up[0];
        assert(up.len() > 1);
        assert(tree.nodes[i].parent == Some(up[0int + 1]));
        assert(node_wf(tree.nodes, i));
        assert(state_holds(tree.nodes, states, i));
        assert(t == (TimelineState { content: states[i].content, cursor: t.cursor }));
        let x = run(t, tree.nodes[i].edit->Some_0.inverse)->Ok_0.after;
        let rest = up.drop_first();
        assert(rest[k - 1] == stop);
        assert forall|j: int| 0 <= j < rest.len() implies 0 <= (#[trigger] rest[j]) < tree.nodes.len() by {
            assert(rest[j] == up[j + 1]);
        }
        assert forall|j: int| 0 <= j < rest.len() - 1 implies rest[j] > 0
            && tree.nodes[#[trigger] rest[j]].parent == Some(rest[j + 1]) by {
            assert(rest[j] == up[j + 1]);
            assert(rest[j + 1] == up[j + 2]);
        }
        lemma_climb(tree, states, rest, stop, x);
    }
}

proof fn lemma_descend(
    tree: TreeView,
    states: Seq<TimelineState>,
    down: Seq<int>,
    stop: int,
    t: TimelineState,
)
    requires
        tree.wf(),
        faithful(tree, states),
        down.len() > 0,
        down.contains(stop),
        forall|k: int| 0 <= k < down.len() ==> 0 <= (#[trigger] down[k]) < tree.nodes.len(),
        forall|k: int|
            0 <= k < down.len() - 1 ==> down[k] > 0 && tree.nodes[#[trigger] down[k]].parent == Some(
                down[k + 1],
            ),
        t.content == states[stop].content,
    ensures
        descend(tree.nodes, down, stop, t) == Some(
            TimelineState { content: states[down[0]].content, cursor: t.cursor },
        ),
    decreases down.len(),
{
    if down[0] == stop {
        assert(t == (TimelineState { content: states[stop].content, cursor: t.cursor }));
    } else {
        let k = choose|k: int| 0 <= k < down.len() && down[k] == stop;
        assert(k > 0);
        let i = down[0];
        assert(down.len() > 1);
        assert(tree.nodes[i].parent == Some(down[0int + 1]));
        assert(node_wf(tree.nodes, i));
        assert(state_holds(tree.nodes, states, i));
        let rest = down.drop_first();
        assert(rest[k - 1] == stop);
        assert forall|j: int| 0 <= j < rest.len() implies 0 <= (#[trigger] rest[j]) < tree.nodes.len() by {
            assert(rest[j] == down[j + 1]);
        }
        assert forall|j: int| 0 <= j < rest.len() - 1 implies rest[j] > 0
            && tree.nodes[#[trigger] rest[j]].parent == Some(rest[j + 1]) by {
            assert(rest[j] == down[j + 1]);
            assert(rest[j + 1] == down[j + 2]);
        }
        lemma_descend(tree, states, rest, stop, t);
        let u = TimelineState { content: states[rest[0]].content, cursor: t.cursor };
        assert(run(u, tree.nodes[i].edit->Some_0.command) is Ok);
    }
}

/// Going to any state of a faithful history arrives exactly at it, across
/// branches.
pub proof fn goto_arrives_at_the_state(
    before: TreeView,
    states: Seq<TimelineState>,
    target: int,
    after: TreeView,
    u: TimelineState,
    r: Result<(), CmdError>,
)
    requires
        before.wf(),
        faithful(before, states),
        0 <= target < before.nodes.len(),
        goto_outcome(before, states[before.current], target, after, u, r),
    ensures
        r is Ok,
        after.current == target,
        after.nodes == before.nodes,
        u == states[target],
{
    let nodes = before.nodes;
    let t = states[before.current];
    let up = path(nodes, before.current);
    let down = path(nodes, target);
    lemma_path(nodes, before.current);
    lemma_path(nodes, target);
    assert(down.contains(up[up.len() - 1])) by {
        assert(down[down.len() - 1] == 0);
    }
    lemma_meeting(up, down);
    let stop = meeting(up, down);
    lemma_climb(before, states, up, stop, t);
    let mid = TimelineState { content: states[stop].content, cursor: t.cursor };
    lemma_descend(before, states, down, stop, mid);
    assert(state_holds(nodes, states, target));
}

/// Rebuilding a state of a faithful history from a snapshot gives the contents
/// of that state.
pub proof fn rebuilding_agrees_with_the_state(
    tree: TreeView,
    states: Seq<TimelineState>,
    i: int,
)
    requires
        tree.wf(),
        faithful(tree, states),
        0 <= i < tree.nodes.len(),
    ensures
        rebuilt(tree.nodes, i) matches Ok(t) && t.content == states[i].content,
        tree.nodes[i].snapshot is Some ==> rebuilt(tree.nodes, i) == Ok::<
            TimelineState,
            CoreError,
        >(states[i]),
    decreases i,
{
    assert(node_wf(tree.nodes, i));
    assert(state_holds(tree.nodes, states, i));
    if tree.nodes[i].snapshot is None {
        let p = tree.nodes[i].parent->Some_0;
        rebuilding_agrees_with_the_state(tree, states, p);
        let t = rebuilt(tree.nodes, p)->Ok_0;
        assert(t == (TimelineState { content: states[p].content, cursor: t.cursor }));
        assert(run(t, tree.nodes[i].edit->Some_0.command) is Ok);
    }
}

/// A snapshot puts a state right, whatever was there before: the damage of a
/// wrong inverse ends where it meets one.
pub proof fn a_snapshot_wins(n: NodeView, t: TimelineState)
    requires
        n.snapshot is Some,
    ensures
        settled(n, t) == n.snapshot->Some_0,
{
}

/// A failed replay means that the history cannot be trusted.
fn drift(e: CmdError) -> (d: CmdError)
    ensures
        d@ == match e@ {
            CmdErrorView::ReplayFailed(_) => e@,
            _ => CmdErrorView::ReplayFailed(cmd_sentence(e@)),
        },
{
    match e {
        CmdError::ReplayFailed(s) => CmdError::ReplayFailed(s),
        other => CmdError::ReplayFailed(other.user_message()),
    }
}

/// A tree with one more state: it follows the current one and becomes it. All
/// other states stay as they were.
pub open spec fn grown(t: TreeView, edit: EditView, state: TimelineState) -> TreeView {
    let id = t.nodes.len() as int;
    let here = t.nodes[t.current];
    let kept = t.interval != 0 && id % (t.interval as int) == 0;
    TreeView {
        nodes: t.nodes.update(
            t.current,
            NodeView { children: here.children.push(id), ..here },
        ).push(
            NodeView {
                parent: Some(t.current),
                children: Seq::empty(),
                edit: Some(edit),
                snapshot: if kept { Some(state) } else { None },
                id_cursor: state.cursor,
            },
        ),
        current: id,
        interval: t.interval,
    }
}

/// The state a tree has after a change was recorded.
pub open spec fn recorded(
    t: TreeView,
    command: EditCommand,
    inverse: EditCommand,
    state: TimelineState,
) -> TreeView {
    grown(
        t,
        EditView { command: command@, inverse: inverse@, label: description(command) },
        state,
    )
}

/// Recording keeps a history well formed.
proof fn lemma_recorded_wf(
    t: TreeView,
    command: EditCommand,
    inverse: EditCommand,
    state: TimelineState,
)
    requires
        t.wf(),
        state.content.wf(),
    ensures
        recorded(t, command, inverse, state).wf(),
{
    let r = recorded(t, command, inverse, state);
    let id = t.nodes.len() as int;
    assert(node_wf(t.nodes, t.current));
    assert forall|i: int| 0 <= i < r.nodes.len() implies #[trigger] node_wf(r.nodes, i) by {
        if i < id {
            assert(node_wf(t.nodes, i));
            let n = r.nodes[i];
            let o = t.nodes[i];
            assert forall|k: int| 0 <= k < n.children.len() implies i < (#[trigger] n.children[k])
                < r.nodes.len() && r.nodes[n.children[k]].parent == Some(i) by {
                if k < o.children.len() {
                    assert(n.children[k] == o.children[k]);
                    assert(i < o.children[k] < t.nodes.len());
                } else {
                    assert(n.children[k] == id);
                }
            }
            assert forall|j: int, k: int| 0 <= j < k < n.children.len() implies n.children[j]
                < n.children[k] by {
                assert(n.children[j] == o.children[j]);
                assert(i < o.children[j] < t.nodes.len());
                if k < o.children.len() {
                    assert(o.children[j] < o.children[k]);
                }
            }
        }
    }
    assert forall|i: int| 0 < i < r.nodes.len() implies (#[trigger] r.nodes[i]).parent is Some
        && r.nodes[r.nodes[i].parent->Some_0].children.contains(i) by {
        if i < id {
            assert(t.nodes[i].parent is Some);
            let p = t.nodes[i].parent->Some_0;
            assert(node_wf(t.nodes, i));
            assert(t.nodes[p].children.contains(i));
            let k = choose|k: int| 0 <= k < t.nodes[p].children.len() && t.nodes[p].children[k] == i;
            assert(r.nodes[p].children[k] == i);
        } else {
            let here = r.nodes[t.current].children;
            assert(here[here.len() - 1] == id);
        }
    }
}

impl UndoTree {
    pub closed spec fn view(self) -> TreeView {
        TreeView {
            nodes: Seq::new(self.nodes@.len(), |i: int| node_view(self.nodes@[i])),
            current: self.current.0 as int,
            interval: self.snapshot_interval,
        }
    }

    /// Starts a history at `initial`. The root keeps its snapshot, so that any
    /// state can be rebuilt.
    pub fn new(initial: Timeline) -> (t: Self)
        requires
            initial@.wf(),
        ensures
            t.view().wf(),
            t.view().current == 0,
            t.view().interval == DEFAULT_SNAPSHOT_INTERVAL,
            t.view().nodes == seq![
                NodeView {
                    parent: None,
                    children: Seq::empty(),
                    edit: None,
                    snapshot: Some(initial.state()),
                    id_cursor: initial.state().cursor,
                },
            ],
    {
        let id_cursor: u64 = initial.id_cursor;
        let mut nodes: Vec<Node> = Vec::new();
        let ghost first = initial.state();
        nodes.push(
            Node {
                parent: None,
                children: Vec::new(),
                edit: None,
                snapshot: Some(initial),
                id_cursor,
            },
        );
        let t = UndoTree {
            nodes,
            current: NodeId(0),
            snapshot_interval: DEFAULT_SNAPSHOT_INTERVAL,
        };
        proof {
            let root = NodeView {
                parent: None,
                children: Seq::empty(),
                edit: None,
                snapshot: Some(first),
                id_cursor: first.cursor,
            };
            assert(node_view(t.nodes@[0]).children =~= root.children);
            assert(t.view().nodes =~= seq![root]);
            assert(node_wf(t.view().nodes, 0));
        }
        t
    }

    /// Keeps a whole timeline every `n` changes; never, where `n` is zero.
    pub fn set_snapshot_interval(&mut self, n: u64)
        requires
            old(self).view().wf(),
        ensures
            final(self).view() == (TreeView { interval: n, ..old(self).view() }),
            final(self).view().wf(),
    {
        self.snapshot_interval = n;
        assert(self.view().nodes =~= old(self).view().nodes);
    }

    pub fn current(&self) -> (n: NodeId)
        ensures
            n.0 == self.view().current,
    {
        self.current
    }

    /// How many changes there are.
    pub fn len(&self) -> (n: usize)
        requires
            self.view().wf(),
        ensures
            n == self.view().nodes.len() - 1,
    {
        self.nodes.len() - 1
    }

    pub fn is_empty(&self) -> (b: bool)
        requires
            self.view().wf(),
        ensures
            b == (self.view().nodes.len() == 1),
    {
        self.nodes.len() == 1
    }

    pub fn at_root(&self) -> (b: bool)
        ensures
            b == (self.view().current == 0),
    {
        self.current.0 == 0
    }

    /// Records a command that has already been applied to `state`.
    pub fn record(&mut self, command: EditCommand, inverse: EditCommand, state: &Timeline)
        requires
            old(self).view().wf(),
            state@.wf(),
        ensures
            final(self).view().wf(),
            final(self).view() == recorded(old(self).view(), command, inverse, state.state()),
    {
        let ghost before = self.view();
        proof {
            lemma_recorded_wf(before, command, inverse, state.state());
        }
        let id: usize = self.nodes.len();
        let kept = self.snapshot_interval != 0 && id as u64 % self.snapshot_interval == 0;
        let snapshot = if kept {
            Some(state.clone())
        } else {
            None
        };
        let here: usize = self.current.0;
        assert(here < self.nodes@.len());
        let ghost old_here = node_view(self.nodes@[here as int]);
        self.nodes[here].children.push(NodeId(id));
        assert(node_view(self.nodes@[here as int]).children =~= old_here.children.push(id as int));
        self.nodes.push(
            Node {
                parent: Some(self.current),
                children: Vec::new(),
                edit: Some(Edit { command, inverse }),
                snapshot,
                id_cursor: state.id_cursor,
            },
        );
        self.current = NodeId(id);
        proof {
            let r = recorded(before, command, inverse, state.state());
            assert(node_view(self.nodes@[id as int]).children =~= Seq::<int>::empty());
            assert(self.view().nodes =~= r.nodes);
        }
    }

    /// Pins the current state, as saving does.
    pub fn snapshot_now(&mut self, state: &Timeline)
        requires
            old(self).view().wf(),
            state@.wf(),
        ensures
            final(self).view().wf(),
            ({
                let before = old(self).view();
                let here = before.nodes[before.current];
                final(self).view() == (TreeView {
                    nodes: before.nodes.update(
                        before.current,
                        NodeView { snapshot: Some(state.state()), ..here },
                    ),
                    ..before
                })
            }),
    {
        let ghost before = self.view();
        let here: usize = self.current.0;
        assert(here < self.nodes@.len());
        let kept = state.clone();
        self.nodes[here].snapshot = Some(kept);
        proof {
            let n = NodeView { snapshot: Some(state.state()), ..before.nodes[before.current] };
            assert(node_view(self.nodes@[here as int]).children =~= n.children);
            let after = TreeView { nodes: before.nodes.update(before.current, n), ..before };
            assert(self.view().nodes =~= after.nodes);
            assert forall|i: int| 0 <= i < after.nodes.len() implies #[trigger] node_wf(
                after.nodes,
                i,
            ) by {
                assert(node_wf(before.nodes, i));
                let m = after.nodes[i];
                assert forall|k: int| 0 <= k < m.children.len() implies i < (
                #[trigger] m.children[k]) < after.nodes.len() && after.nodes[m.children[k]].parent
                    == Some(i) by {
                    assert(i < before.nodes[i].children[k] < before.nodes.len());
                }
            }
            assert forall|i: int| 0 < i < after.nodes.len() implies (
            #[trigger] after.nodes[i]).parent is Some
                && after.nodes[after.nodes[i].parent->Some_0].children.contains(i) by {
                assert(before.nodes[i].parent is Some);
                assert(node_wf(before.nodes, i));
                let above = before.nodes[i].parent->Some_0;
                assert(after.nodes[above].children == before.nodes[above].children);
            }
        }
    }

    /// Arrives at the current state: its snapshot is the truth where it has
    /// one, which bounds what a wrong inverse can cost.
    fn reconcile(&self, tl: &mut Timeline)
        requires
            self.view().wf(),
            old(tl)@.wf(),
        ensures
            final(tl)@.wf(),
            final(tl).state() == settled(
                self.view().nodes[self.view().current],
                old(tl).state(),
            ),
    {
        let here: usize = self.current.0;
        proof {
            assert(node_wf(self.view().nodes, here as int));
            assert(self.view().nodes[here as int] == node_view(self.nodes@[here as int]));
        }
        tl.id_cursor = self.nodes[here].id_cursor;
        if let Some(s) = &self.nodes[here].snapshot {
            *tl = s.clone();
        }
    }

    /// Steps back one change.
    pub fn undo(&mut self, tl: &mut Timeline) -> (r: Result<String, CmdError>)
        requires
            old(self).view().wf(),
            old(tl)@.wf(),
        ensures
            final(self).view().wf(),
            final(tl)@.wf(),
            undo_outcome(
                old(self).view(),
                old(tl).state(),
                final(self).view(),
                final(tl).state(),
                r,
            ),
    {
        let here: usize = self.current.0;
        let ghost before = self.view();
        proof {
            assert(node_wf(before.nodes, here as int));
            assert(before.nodes[here as int] == node_view(self.nodes@[here as int]));
        }
        let (inverse, label, parent) = match (&self.nodes[here].edit, self.nodes[here].parent) {
            (Some(e), Some(p)) => (e.inverse.clone(), e.command.describe(), p),
            _ => {
                return Err(CmdError::NothingToUndo);
            },
        };
        match inverse.apply(tl) {
            Ok(_) => {},
            Err(e) => {
                return Err(drift(e));
            },
        }
        self.current = parent;
        proof {
            assert(self.view().nodes =~= before.nodes);
            assert(self.view() == (TreeView { current: parent.0 as int, ..before }));
            assert(self.view().wf());
        }
        self.reconcile(tl);
        Ok(label)
    }

    /// Steps forward into the branch made last.
    pub fn redo(&mut self, tl: &mut Timeline) -> (r: Result<String, CmdError>)
        requires
            old(self).view().wf(),
            old(tl)@.wf(),
        ensures
            final(self).view().wf(),
            final(tl)@.wf(),
            redo_outcome(
                old(self).view(),
                old(tl).state(),
                final(self).view(),
                final(tl).state(),
                r,
            ),
    {
        let here: usize = self.current.0;
        let ghost before = self.view();
        proof {
            assert(node_wf(before.nodes, here as int));
            assert(before.nodes[here as int] == node_view(self.nodes@[here as int]));
        }
        let count: usize = self.nodes[here].children.len();
        if count == 0 {
            return Err(CmdError::NothingToRedo);
        }
        let child = self.nodes[here].children[count - 1];
        proof {
            let c = before.nodes[here as int].children;
            assert(c.last() == c[count - 1]);
            assert(here < c[count - 1] < before.nodes.len());
            assert(node_wf(before.nodes, child.0 as int));
            assert(before.nodes[child.0 as int] == node_view(self.nodes@[child.0 as int]));
        }
        let (command, label) = match &self.nodes[child.0].edit {
            Some(e) => (e.command.clone(), e.command.describe()),
            None => {
                return Err(CmdError::NothingToRedo);
            },
        };
        match command.apply(tl) {
            Ok(_) => {},
            Err(e) => {
                return Err(drift(e));
            },
        }
        self.current = child;
        proof {
            assert(self.view().nodes =~= before.nodes);
            assert(self.view() == (TreeView { current: child.0 as int, ..before }));
            assert(self.view().wf());
        }
        self.reconcile(tl);
        Ok(label)
    }

    /// A state and the states above it.
    fn path_to_root(&self, from: NodeId) -> (v: Vec<NodeId>)
        requires
            self.view().wf(),
            from.0 < self.view().nodes.len(),
        ensures
            v@.len() == path(self.view().nodes, from.0 as int).len(),
            forall|k: int|
                0 <= k < v@.len() ==> (#[trigger] v@[k]).0 == path(
                    self.view().nodes,
                    from.0 as int,
                )[k],
    {
        let ghost nodes = self.view().nodes;
        let ghost all = path(nodes, from.0 as int);
        let mut v: Vec<NodeId> = Vec::new();
        let mut cur = from;
        v.push(from);
        let mut more = true;
        proof {
            lemma_path(nodes, from.0 as int);
            assert(all =~= seq![from.0 as int] + all.drop_first());
        }
        while more
            invariant
                self.view().wf(),
                nodes == self.view().nodes,
                all == path(nodes, from.0 as int),
                cur.0 < nodes.len(),
                v@.len() > 0,
                forall|k: int| 0 <= k < v@.len() ==> (#[trigger] v@[k]).0 == all[k],
                more ==> v@.len() <= all.len() && v@.last() == cur && all.skip(v@.len() - 1) == path(
                    nodes,
                    cur.0 as int,
                ),
                !more ==> v@.len() == all.len(),
            decreases cur.0, (if more { 1int } else { 0 }),
        {
            proof {
                assert(node_wf(nodes, cur.0 as int));
                assert(nodes[cur.0 as int] == node_view(self.nodes@[cur.0 as int]));
                lemma_path(nodes, cur.0 as int);
            }
            let ghost rest = all.skip(v@.len() - 1);
            match self.nodes[cur.0].parent {
                Some(p) => {
                    proof {
                        let above = path(nodes, p.0 as int);
                        assert(rest == seq![cur.0 as int] + above);
                        lemma_path(nodes, p.0 as int);
                        assert(rest[1] == above[0]);
                        assert(all[v@.len() as int] == rest[1]);
                        assert(all.skip(v@.len() as int) =~= rest.skip(1));
                        assert(rest.skip(1) =~= above);
                    }
                    v.push(p);
                    cur = p;
                },
                None => {
                    assert(rest =~= seq![cur.0 as int]);
                    assert(all.len() == v@.len() - 1 + rest.len());
                    more = false;
                },
            }
        }
        v
    }

    /// How many changes deep a state is.
    fn depth(&self, id: NodeId) -> (d: usize)
        requires
            self.view().wf(),
            id.0 < self.view().nodes.len(),
        ensures
            d == depth_of(self.view().nodes, id.0 as int),
    {
        proof {
            lemma_path(self.view().nodes, id.0 as int);
        }
        self.path_to_root(id).len() - 1
    }

    /// Rebuilds a state from the nearest snapshot above it. A state that is not
    /// in the history has none.
    pub fn rebuild(&self, target: NodeId) -> (r: Result<Timeline, CmdError>)
        requires
            self.view().wf(),
        ensures
            target.0 >= self.view().nodes.len() ==> r is Err && r->Err_0@
                == CmdErrorView::ReplayFailed("no snapshot to rebuild from"@),
            target.0 < self.view().nodes.len() ==> match rebuilt(
                self.view().nodes,
                target.0 as int,
            ) {
                Ok(t) => r is Ok && r->Ok_0.state() == t && r->Ok_0@.wf(),
                Err(e) => r is Err && r->Err_0@ == drifted(e),
            },
    {
        let ghost nodes = self.view().nodes;
        if target.0 >= self.nodes.len() {
            return Err(CmdError::ReplayFailed("no snapshot to rebuild from".to_owned()));
        }
        let way = self.path_to_root(target);
        proof {
            lemma_path(nodes, target.0 as int);
        }
        let count: usize = way.len();
        let mut k: usize = 0;
        while self.nodes[way[k].0].snapshot.is_none()
            invariant
                count == way@.len(),
                self.view().wf(),
                nodes == self.view().nodes,
                way@.len() == path(nodes, target.0 as int).len(),
                forall|j: int|
                    0 <= j < way@.len() ==> (#[trigger] way@[j]).0 == path(
                        nodes,
                        target.0 as int,
                    )[j],
                target.0 < nodes.len(),
                k < way@.len(),
                forall|j: int| 0 <= j < way@.len() ==> (#[trigger] way@[j]).0 < nodes.len(),
                forall|j: int| 0 <= j < k ==> nodes[(#[trigger] way@[j]).0 as int].snapshot is None,
                way@[way@.len() - 1].0 == 0,
            decreases way@.len() - k,
        {
            proof {
                let at = way@[k as int].0 as int;
                assert(nodes[at] == node_view(self.nodes@[at]));
                if k == way@.len() - 1 {
                    assert(node_wf(nodes, 0));
                }
            }
            k = k + 1;
        }
        let at: usize = way[k].0;
        proof {
            assert(nodes[at as int] == node_view(self.nodes@[at as int]));
            assert(node_wf(nodes, at as int));
        }
        let mut tl = match &self.nodes[at].snapshot {
            Some(s) => s.clone(),
            None => {
                return Err(CmdError::ReplayFailed("no snapshot to rebuild from".to_owned()));
            },
        };
        while k > 0
            invariant
                self.view().wf(),
                nodes == self.view().nodes,
                way@.len() == path(nodes, target.0 as int).len(),
                forall|j: int|
                    0 <= j < way@.len() ==> (#[trigger] way@[j]).0 == path(
                        nodes,
                        target.0 as int,
                    )[j],
                target.0 < nodes.len(),
                k < way@.len(),
                forall|j: int| 0 <= j < way@.len() ==> (#[trigger] way@[j]).0 < nodes.len(),
                forall|j: int| 0 <= j < k ==> nodes[(#[trigger] way@[j]).0 as int].snapshot is None,
                tl@.wf(),
                rebuilt(nodes, way@[k as int].0 as int) == Ok::<TimelineState, CoreError>(
                    tl.state(),
                ),
            decreases k,
        {
            let below: usize = way[k - 1].0;
            let ghost all = path(nodes, target.0 as int);
            proof {
                lemma_path(nodes, target.0 as int);
                assert(way@[k - 1].0 == all[k - 1]);
                assert(nodes[all[k - 1]].parent == Some(all[(k - 1) + 1]));
                assert(nodes[below as int] == node_view(self.nodes@[below as int]));
                assert(node_wf(nodes, below as int));
                assert(nodes[way@[k - 1].0 as int].snapshot is None);
            }
            match &self.nodes[below].edit {
                Some(e) => {
                    match e.command.apply(&mut tl) {
                        Ok(_) => {},
                        Err(e) => {
                            proof {
                                self.lemma_rebuild_fails(target, way@, k - 1);
                            }
                            return Err(drift(e));
                        },
                    }
                },
                None => {
                    return Err(CmdError::ReplayFailed("a state has no command".to_owned()));
                },
            }
            k = k - 1;
        }
        assert(way@[0].0 == target.0);
        Ok(tl)
    }

    proof fn lemma_rebuild_fails(self, target: NodeId, way: Seq<NodeId>, k: int)
        requires
            self.view().wf(),
            target.0 < self.view().nodes.len(),
            way.len() == path(self.view().nodes, target.0 as int).len(),
            forall|j: int|
                0 <= j < way.len() ==> (#[trigger] way[j]).0 == path(
                    self.view().nodes,
                    target.0 as int,
                )[j],
            0 <= k < way.len(),
            forall|j: int|
                0 <= j <= k ==> self.view().nodes[(#[trigger] way[j]).0 as int].snapshot is None,
            rebuilt(self.view().nodes, way[k].0 as int) is Err,
        ensures
            rebuilt(self.view().nodes, target.0 as int) == rebuilt(
                self.view().nodes,
                way[k].0 as int,
            ),
        decreases k,
    {
        let nodes = self.view().nodes;
        let all = path(nodes, target.0 as int);
        lemma_path(nodes, target.0 as int);
        if k > 0 {
            assert(way[k - 1].0 == all[k - 1]);
            assert(nodes[all[k - 1]].parent == Some(all[(k - 1) + 1]));
            assert(node_wf(nodes, all[k - 1]));
            assert(nodes[way[k - 1].0 as int].snapshot is None);
            self.lemma_rebuild_fails(target, way, k - 1);
        } else {
            assert(way[0].0 == all[0]);
        }
    }

    /// The first state on `up` that is also on `down`, by its place on `up`.
    fn meet(up: &Vec<NodeId>, down: &Vec<NodeId>) -> (m: usize)
        requires
            exists|k: int|
                0 <= k < up@.len() && ids(down@).contains((#[trigger] up@[k]).0 as int),
        ensures
            m == meeting(ids(up@), ids(down@)),
    {
        let ghost a = ids(up@);
        let ghost b = ids(down@);
        let mut i: usize = 0;
        assert(a.skip(0) =~= a);
        while i < up.len()
            invariant
                i <= up@.len(),
                a == ids(up@),
                b == ids(down@),
                meeting(a, b) == meeting(a.skip(i as int), b),
                exists|k: int| i <= k < up@.len() && b.contains((#[trigger] up@[k]).0 as int),
            decreases up@.len() - i,
        {
            let n = up[i];
            assert(a.skip(i as int)[0] == n.0);
            let mut j: usize = 0;
            while j < down.len()
                invariant
                    j <= down@.len(),
                    b == ids(down@),
                    a == ids(up@),
                    i < up@.len(),
                    n == up@[i as int],
                    a.skip(i as int)[0] == n.0,
                    meeting(a, b) == meeting(a.skip(i as int), b),
                    forall|k: int| 0 <= k < j ==> b[k] != n.0,
                decreases down@.len() - j,
            {
                if down[j].0 == n.0 {
                    assert(b[j as int] == n.0);
                    assert(b.contains(n.0 as int));
                    return n.0;
                }
                j = j + 1;
            }
            assert(!b.contains(n.0 as int));
            assert(a.skip(i as int).drop_first() =~= a.skip(i as int + 1));
            proof {
                let k = choose|k: int|
                    i <= k < up@.len() && b.contains((#[trigger] up@[k]).0 as int);
                assert(k > i);
                assert(b.contains(up@[k].0 as int));
            }
            i = i + 1;
        }
        0
    }

    /// Walks from the current state to `target` on a copy of `tl`.
    fn walk(&self, target: NodeId, tl: &Timeline) -> (r: Option<Timeline>)
        requires
            self.view().wf(),
            target.0 < self.view().nodes.len(),
            tl@.wf(),
        ensures
            match walked(
                self.view().nodes,
                self.view().current,
                target.0 as int,
                tl.state(),
            ) {
                Some(t) => r is Some && r->Some_0.state() == t && r->Some_0@.wf(),
                None => r is None,
            },
    {
        let ghost nodes = self.view().nodes;
        let up = self.path_to_root(self.current);
        let down = self.path_to_root(target);
        let ghost a = path(nodes, self.current.0 as int);
        let ghost b = path(nodes, target.0 as int);
        proof {
            lemma_path(nodes, self.current.0 as int);
            lemma_path(nodes, target.0 as int);
            assert(ids(up@) =~= a);
            assert(ids(down@) =~= b);
            assert(up@[up@.len() - 1].0 == 0);
            assert(b[b.len() - 1] == 0);
            assert(b.contains(up@[up@.len() - 1].0 as int));
            lemma_meeting(a, b);
        }
        let stop: usize = UndoTree::meet(&up, &down);
        let mut work = tl.clone();
        let count: usize = up.len();
        let mut i: usize = 0;
        assert(a.skip(0) =~= a);
        while up[i].0 != stop
            invariant
                count == up@.len(),
                self.view().wf(),
                nodes == self.view().nodes,
                a == path(nodes, self.view().current),
                b == path(nodes, target.0 as int),
                stop == meeting(a, b),
                a == ids(up@),
                a.contains(stop as int),
                forall|k: int| 0 <= k < a.len() ==> 0 <= (#[trigger] a[k]) < nodes.len(),
                i < up@.len(),
                forall|k: int| 0 <= k < i ==> a[k] != stop,
                work@.wf(),
                climb(nodes, a, stop as int, tl.state()) == climb(
                    nodes,
                    a.skip(i as int),
                    stop as int,
                    work.state(),
                ),
            decreases up@.len() - i,
        {
            let at: usize = up[i].0;
            proof {
                assert(a[i as int] == at);
                assert(a.skip(i as int)[0] == at);
                assert(nodes[at as int] == node_view(self.nodes@[at as int]));
                assert(a.skip(i as int).drop_first() =~= a.skip(i as int + 1));
                let k = choose|k: int| 0 <= k < a.len() && a[k] == stop;
                assert(k > i);
            }
            match &self.nodes[at].edit {
                Some(e) => {
                    if e.inverse.apply(&mut work).is_err() {
                        return None;
                    }
                },
                None => {
                    return None;
                },
            }
            i = i + 1;
        }
        proof {
            assert(a.skip(i as int)[0] == a[i as int]);
        }
        let ghost mid = work.state();
        let length: usize = down.len();
        let mut j: usize = 0;
        while down[j].0 != stop
            invariant
                length == down@.len(),
                b == ids(down@),
                b.contains(stop as int),
                j < down@.len(),
                forall|k: int| 0 <= k < j ==> b[k] != stop,
            decreases down@.len() - j,
        {
            proof {
                assert(b[j as int] == down@[j as int].0);
                let k = choose|k: int| 0 <= k < b.len() && b[k] == stop;
                assert(k > j);
            }
            j = j + 1;
        }
        assert(b.skip(j as int)[0] == stop);
        while j > 0
            invariant
                self.view().wf(),
                nodes == self.view().nodes,
                a == path(nodes, self.view().current),
                b == path(nodes, target.0 as int),
                stop == meeting(a, b),
                climb(nodes, a, stop as int, tl.state()) == Some(mid),
                b == ids(down@),
                forall|k: int| 0 <= k < b.len() ==> 0 <= (#[trigger] b[k]) < nodes.len(),
                j < down@.len(),
                forall|k: int| 0 <= k < j ==> b[k] != stop,
                work@.wf(),
                descend(nodes, b.skip(j as int), stop as int, mid) == Some(work.state()),
            decreases j,
        {
            let at: usize = down[j - 1].0;
            proof {
                assert(b[j - 1] == at);
                assert(b.skip(j as int - 1)[0] == at);
                assert(nodes[at as int] == node_view(self.nodes@[at as int]));
                assert(b.skip(j as int - 1).drop_first() =~= b.skip(j as int));
            }
            let failed = match &self.nodes[at].edit {
                Some(e) => e.command.apply(&mut work).is_err(),
                None => true,
            };
            if failed {
                proof {
                    lemma_descend_fails(nodes, b, stop as int, mid, j as int - 1);
                }
                return None;
            }
            j = j - 1;
        }
        assert(b.skip(0) =~= b);
        Some(work)
    }

    /// Moves to any state, walking where that works and rebuilding where a
    /// step fails.
    pub fn goto(&mut self, target: NodeId, tl: &mut Timeline) -> (r: Result<(), CmdError>)
        requires
            old(self).view().wf(),
            old(tl)@.wf(),
        ensures
            final(self).view().wf(),
            final(tl)@.wf(),
            goto_outcome(
                old(self).view(),
                old(tl).state(),
                target.0 as int,
                final(self).view(),
                final(tl).state(),
                r,
            ),
    {
        let ghost before = self.view();
        if target.0 >= self.nodes.len() {
            let mut s = "state ".to_owned();
            push_decimal(&mut s, target.0 as u64);
            s.append(" is not in the history");
            return Err(CmdError::ReplayFailed(s));
        }
        if target == self.current {
            return Ok(());
        }
        let arrived = match self.walk(target, tl) {
            Some(t) => t,
            None => match self.rebuild(target) {
                Ok(t) => t,
                Err(e) => {
                    return Err(e);
                },
            },
        };
        *tl = arrived;
        self.current = target;
        proof {
            assert(self.view().nodes =~= before.nodes);
            assert(self.view() == (TreeView { current: target.0 as int, ..before }));
            assert(self.view().wf());
        }
        self.reconcile(tl);
        Ok(())
    }

    /// The state before this one in the order of changes, across branches.
    pub fn time_travel_back(&mut self, tl: &mut Timeline) -> (r: Result<u64, CmdError>)
        requires
            old(self).view().wf(),
            old(tl)@.wf(),
        ensures
            final(self).view().wf(),
            final(tl)@.wf(),
            travel_outcome(
                old(self).view(),
                old(tl).state(),
                old(self).view().current - 1,
                CmdErrorView::NothingToUndo,
                final(self).view(),
                final(tl).state(),
                r,
            ),
    {
        if self.current.0 == 0 {
            return Err(CmdError::NothingToUndo);
        }
        let target: usize = self.current.0 - 1;
        match self.goto(NodeId(target), tl) {
            Ok(()) => Ok(target as u64),
            Err(e) => Err(e),
        }
    }

    /// The state after this one in the order of changes, across branches.
    pub fn time_travel_forward(&mut self, tl: &mut Timeline) -> (r: Result<u64, CmdError>)
        requires
            old(self).view().wf(),
            old(tl)@.wf(),
        ensures
            final(self).view().wf(),
            final(tl)@.wf(),
            travel_outcome(
                old(self).view(),
                old(tl).state(),
                old(self).view().current + 1,
                CmdErrorView::NothingToRedo,
                final(self).view(),
                final(tl).state(),
                r,
            ),
    {
        if self.current.0 >= self.nodes.len() - 1 {
            return Err(CmdError::NothingToRedo);
        }
        let target: usize = self.current.0 + 1;
        match self.goto(NodeId(target), tl) {
            Ok(()) => Ok(target as u64),
            Err(e) => Err(e),
        }
    }

    /// The changes, in the order in which they were made.
    pub fn undolist(&self) -> (rows: Vec<UndoEntry>)
        requires
            self.view().wf(),
        ensures
            rows@.len() == self.view().nodes.len() - 1,
            forall|k: int|
                0 <= k < rows@.len() ==> is_row(#[trigger] rows@[k], self.view(), k + 1),
    {
        let mut rows: Vec<UndoEntry> = Vec::new();
        let mut i: usize = 1;
        while i < self.nodes.len()
            invariant
                self.view().wf(),
                1 <= i <= self.nodes@.len(),
                rows@.len() == i - 1,
                forall|k: int|
                    0 <= k < rows@.len() ==> is_row(#[trigger] rows@[k], self.view(), k + 1),
            decreases self.nodes@.len() - i,
        {
            proof {
                assert(node_wf(self.view().nodes, i as int));
                assert(self.view().nodes[i as int] == node_view(self.nodes@[i as int]));
            }
            let description = match &self.nodes[i].edit {
                Some(e) => e.command.describe(),
                None => String::new(),
            };
            let depth: usize = self.depth(NodeId(i));
            rows.push(
                UndoEntry {
                    seq: i as u64,
                    node: NodeId(i),
                    description,
                    current: self.current.0 == i,
                    depth,
                },
            );
            i = i + 1;
        }
        rows
    }

    /// The nearest snapshot, and the commands from it to the current state.
    pub fn compacted(&self) -> (r: (Timeline, Vec<EditCommand>))
        requires
            self.view().wf(),
        ensures
            base_of(self.view().nodes, self.view().current) == Some(r.0.state()),
            r.0@.wf(),
            commands_view(r.1@) == log_of(self.view().nodes, self.view().current),
    {
        let ghost nodes = self.view().nodes;
        let ghost here = self.view().current;
        let mut log: Vec<EditCommand> = Vec::new();
        let mut at: usize = self.current.0;
        proof {
            assert(commands_view(log@) =~= Seq::<Seq<Step>>::empty());
            assert(log_of(nodes, here) + commands_view(log@) =~= log_of(nodes, here));
        }
        loop
            invariant
                self.view().wf(),
                nodes == self.view().nodes,
                here == self.view().current,
                at < nodes.len(),
                log_of(nodes, at as int) + commands_view(log@) == log_of(nodes, here),
                base_of(nodes, at as int) == base_of(nodes, here),
            decreases at,
        {
            proof {
                assert(node_wf(nodes, at as int));
                assert(nodes[at as int] == node_view(self.nodes@[at as int]));
            }
            if let Some(s) = &self.nodes[at].snapshot {
                assert(log_of(nodes, here) =~= commands_view(log@));
                return (s.clone(), log);
            }
            let ghost held = commands_view(log@);
            let above: usize = match self.nodes[at].parent {
                Some(p) => p.0,
                None => 0,
            };
            if let Some(e) = &self.nodes[at].edit {
                log.insert(0, e.command.clone());
                proof {
                    let c = nodes[at as int].edit->Some_0.command;
                    assert(commands_view(log@) =~= seq![c] + held);
                    assert(log_of(nodes, above as int) + commands_view(log@) =~= log_of(
                        nodes,
                        at as int,
                    ) + held);
                }
            }
            at = above;
        }
    }
}

/// The places of a list of states.
pub open spec fn ids(v: Seq<NodeId>) -> Seq<int> {
    Seq::new(v.len(), |i: int| v[i].0 as int)
}

/// The steps of a list of commands.
pub open spec fn commands_view(v: Seq<EditCommand>) -> Seq<Seq<Step>> {
    Seq::new(v.len(), |i: int| v[i]@)
}

/// Whether a row describes the state `i`.
pub open spec fn is_row(row: UndoEntry, t: TreeView, i: int) -> bool {
    &&& row.seq == i
    &&& row.node.0 == i
    &&& row.description@ == t.nodes[i].edit->Some_0.label
    &&& row.current == (t.current == i)
    &&& row.depth == depth_of(t.nodes, i)
}

/// A result without the number it carries.
pub open spec fn without_number(r: Result<u64, CmdError>) -> Result<(), CmdError> {
    match r {
        Ok(_) => Ok(()),
        Err(e) => Err(e),
    }
}

/// What travelling in time does: going to a state by its number, or the reason
/// why there is none.
pub open spec fn travel_outcome(
    before: TreeView,
    t: TimelineState,
    target: int,
    refusal: CmdErrorView,
    after: TreeView,
    u: TimelineState,
    r: Result<u64, CmdError>,
) -> bool {
    if 0 <= target < before.nodes.len() {
        goto_outcome(
            before,
            t,
            target,
            after,
            u,
            without_number(r),
        ) && (r matches Ok(n) ==> n == target)
    } else {
        r is Err && r->Err_0@ == refusal && after == before && u == t
    }
}

proof fn lemma_descend_fails(
    nodes: Seq<NodeView>,
    down: Seq<int>,
    stop: int,
    t: TimelineState,
    k: int,
)
    requires
        0 <= k <= down.len(),
        forall|j: int| 0 <= j <= k && j < down.len() ==> down[j] != stop,
        descend(nodes, down.skip(k), stop, t) is None,
    ensures
        descend(nodes, down, stop, t) is None,
    decreases k,
{
    if k == 0 {
        assert(down.skip(0) =~= down);
    } else {
        assert(down.skip(k - 1).drop_first() =~= down.skip(k));
        assert(down.skip(k - 1)[0] == down[k - 1]);
        lemma_descend_fails(nodes, down, stop, t, k - 1);
    }
}

/// Recording a change adds one state after the current one and makes it the
/// current one. What was recorded before stays as it was, abandoned branches
/// with it, and a whole timeline is kept every so many changes.
pub proof fn recording_keeps_every_branch(
    t: TreeView,
    command: EditCommand,
    inverse: EditCommand,
    state: TimelineState,
)
    requires
        t.wf(),
    ensures
        ({
            let after = recorded(t, command, inverse, state);
            let made = after.nodes.last();
            &&& after.nodes.len() == t.nodes.len() + 1
            &&& after.current == t.nodes.len()
            &&& after.interval == t.interval
            &&& forall|i: int|
                0 <= i < t.nodes.len() ==> {
                    &&& (#[trigger] after.nodes[i]).parent == t.nodes[i].parent
                    &&& after.nodes[i].edit == t.nodes[i].edit
                    &&& after.nodes[i].snapshot == t.nodes[i].snapshot
                    &&& after.nodes[i].id_cursor == t.nodes[i].id_cursor
                    &&& i != t.current ==> after.nodes[i].children == t.nodes[i].children
                }
            &&& after.nodes[t.current].children.len() == t.nodes[t.current].children.len() + 1
            &&& after.nodes[t.current].children.last() == after.current
            &&& made.parent == Some(t.current)
            &&& made.children.len() == 0
            &&& made.edit is Some && made.edit->Some_0.command == command@
                && made.edit->Some_0.inverse == inverse@ && made.edit->Some_0.label == description(
                command,
            )
            &&& made.id_cursor == state.cursor
            &&& made.snapshot is Some ==> made.snapshot->Some_0 == state
            &&& t.interval == 0 ==> made.snapshot is None
            &&& forall|m: int|
                t.interval > 0 && t.nodes.len() == #[trigger] (m * t.interval)
                    ==> made.snapshot is Some
            &&& made.snapshot is Some ==> t.nodes.len() % (t.interval as nat) == 0
        }),
{
    let n = t.nodes.len() as int;
    let w = t.interval as int;
    assert(recorded(t, command, inverse, state).nodes.len() == n + 1);
    assert forall|m: int| w > 0 && n == #[trigger] (m * w) implies n % w == 0 by {
        vstd::arithmetic::div_mod::lemma_mod_multiples_basic(m, w);
    }
}

/// The root is no change deep, and every other state is one change deeper than
/// the one before it.
pub proof fn a_change_is_one_deeper(t: TreeView, i: int)
    requires
        t.wf(),
        0 <= i < t.nodes.len(),
    ensures
        depth_of(t.nodes, 0) == 0,
        i > 0 ==> depth_of(t.nodes, i) == depth_of(t.nodes, t.nodes[i].parent->Some_0) + 1,
{
    assert(node_wf(t.nodes, 0));
    assert(node_wf(t.nodes, i));
    lemma_path(t.nodes, i);
    if i > 0 {
        lemma_path(t.nodes, t.nodes[i].parent->Some_0);
    }
}

/// Going back and forth in time goes to the state made just before, and to the
/// one made just after, whatever branch it is on.
pub proof fn time_travel_goes_by_number(
    before: TreeView,
    states: Seq<TimelineState>,
    target: int,
    refusal: CmdErrorView,
    after: TreeView,
    u: TimelineState,
    r: Result<u64, CmdError>,
)
    requires
        before.wf(),
        faithful(before, states),
        travel_outcome(before, states[before.current], target, refusal, after, u, r),
    ensures
        0 <= target < before.nodes.len() ==> r is Ok && r->Ok_0 == target && after.current == target
            && after.nodes == before.nodes && u == states[target],
        !(0 <= target < before.nodes.len()) ==> r is Err && after == before && u
            == states[before.current],
{
    if 0 <= target < before.nodes.len() {
        goto_arrives_at_the_state(before, states, target, after, u, without_number(r));
    }
}

} // verus!
