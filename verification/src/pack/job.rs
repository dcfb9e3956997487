//! What the program does, step by step: which work comes next, what is said,
//! and what is pinned. The work itself is left to the program around this.
use vstd::prelude::*;
use vstd::string::*;

use crate::pack::command::Command;
use crate::pack::command::add_line;
use crate::pack::command::add_text;
use crate::pack::command::sync_line;
use crate::pack::command::sync_text;
use crate::pack::command::usage;
use crate::pack::command::usage_text;
use crate::pack::list::lemma_sorted_length;
use crate::pack::list::sorted_texts;
use crate::pack::lock::Lock;
use crate::pack::lock::Pin;
use crate::pack::lock::PinView;
use crate::pack::lock::list;
use crate::pack::lock::list_line;
use crate::pack::lock::listed;
use crate::pack::lock::names_of;
use crate::pack::lock::update_text;
use crate::pack::paths::Kind;
use crate::pack::plan::Wanted;
use crate::pack::plan::WantedView;
use crate::pack::plan::all_pinned;
use crate::pack::plan::is_missing;
use crate::pack::plan::missing_plugins;
use crate::pack::plan::names_to_update;
use crate::pack::plan::pinned_plugins;
use crate::pack::plan::wanted_views;
use crate::text::join;
use crate::text::texts_view;

verus! {

/// The work that comes next.
#[derive(Debug, PartialEq, Eq)]
pub enum Action {
    /// Install a plugin.
    Install(Wanted),
    /// Update a plugin.
    Update(String),
    /// Look for a plugin.
    Find(String),
    /// Delete a plugin.
    Delete(String),
    /// Look what is in the two directories.
    List,
    /// Write the pins.
    Write,
    /// Nothing is left.
    Stop,
}

/// The contents of an [`Action`].
pub enum ActionView {
    Install(WantedView),
    Update(Seq<char>),
    Find(Seq<char>),
    Delete(Seq<char>),
    List,
    Write,
    Stop,
}

impl View for Action {
    type V = ActionView;

    open spec fn view(&self) -> ActionView {
        match self {
            Action::Install(w) => ActionView::Install(w@),
            Action::Update(name) => ActionView::Update(name@),
            Action::Find(name) => ActionView::Find(name@),
            Action::Delete(name) => ActionView::Delete(name@),
            Action::List => ActionView::List,
            Action::Write => ActionView::Write,
            Action::Stop => ActionView::Stop,
        }
    }
}

/// What came of the work.
#[derive(Debug, PartialEq, Eq)]
pub enum Event {
    /// Nothing was done yet.
    Begin,
    /// A plugin was installed or updated.
    Pinned(Pin),
    /// Whether a plugin is there.
    Found(bool),
    /// A plugin was deleted.
    Gone,
    /// What is in the two directories.
    Listed { start: Vec<String>, opt: Vec<String> },
    /// The pins were written.
    Written,
    /// The work failed.
    Failed,
}

/// The contents of an [`Event`].
pub enum EventView {
    Begin,
    Pinned(PinView),
    Found(bool),
    Gone,
    Listed { start: Seq<Seq<char>>, opt: Seq<Seq<char>> },
    Written,
    Failed,
}

impl View for Event {
    type V = EventView;

    open spec fn view(&self) -> EventView {
        match self {
            Event::Begin => EventView::Begin,
            Event::Pinned(pin) => EventView::Pinned(pin@),
            Event::Found(there) => EventView::Found(*there),
            Event::Gone => EventView::Gone,
            Event::Listed { start, opt } => EventView::Listed {
                start: texts_view(start@),
                opt: texts_view(opt@),
            },
            Event::Written => EventView::Written,
            Event::Failed => EventView::Failed,
        }
    }
}

/// How far the program is; [`PhaseView`] says what each stands for.
#[derive(Debug)]
enum Phase {
    Asked(Command),
    Adding(String),
    Updating(Vec<String>),
    Looking { rest: Vec<Wanted>, restored: Vec<String> },
    Restoring { rest: Vec<Wanted>, restored: Vec<String> },
    Deleting(String),
    Listing,
    Writing(Vec<String>),
    Over,
}

/// The contents of a [`Command`].
pub enum CommandView {
    Add(WantedView),
    Update(Seq<Seq<char>>),
    Sync,
    Remove(Seq<char>),
    List,
    Help,
}

impl View for Command {
    type V = CommandView;

    open spec fn view(&self) -> CommandView {
        match self {
            Command::Add { plugin, kind } => CommandView::Add(
                WantedView { url: plugin.url@, name: plugin.name@, kind: *kind, rev: None },
            ),
            Command::Update(asked) => CommandView::Update(texts_view(asked@)),
            Command::Sync => CommandView::Sync,
            Command::Remove(name) => CommandView::Remove(name@),
            Command::List => CommandView::List,
            Command::Help => CommandView::Help,
        }
    }
}

/// How far the program is.
pub enum PhaseView {
    /// It was asked to do something.
    Asked(CommandView),
    /// A plugin of this name is being installed.
    Adding(Seq<char>),
    /// The first of these is being updated.
    Updating(Seq<Seq<char>>),
    /// The first of these is being looked for.
    Looking { rest: Seq<WantedView>, restored: Seq<Seq<char>> },
    /// The last of `restored` is being installed again, and these come after
    /// it.
    Restoring { rest: Seq<WantedView>, restored: Seq<Seq<char>> },
    /// A plugin is being deleted.
    Deleting(Seq<char>),
    /// The two directories are being read.
    Listing,
    /// The pins are being written, and this is said afterwards.
    Writing(Seq<Seq<char>>),
    /// Nothing is left to do.
    Over,
}

impl View for Phase {
    type V = PhaseView;

    closed spec fn view(&self) -> PhaseView {
        match self {
            Phase::Asked(command) => PhaseView::Asked(command@),
            Phase::Adding(name) => PhaseView::Adding(name@),
            Phase::Updating(rest) => PhaseView::Updating(texts_view(rest@)),
            Phase::Looking { rest, restored } => PhaseView::Looking {
                rest: wanted_views(rest@),
                restored: texts_view(restored@),
            },
            Phase::Restoring { rest, restored } => PhaseView::Restoring {
                rest: wanted_views(rest@),
                restored: texts_view(restored@),
            },
            Phase::Deleting(name) => PhaseView::Deleting(name@),
            Phase::Listing => PhaseView::Listing,
            Phase::Writing(said) => PhaseView::Writing(texts_view(said@)),
            Phase::Over => PhaseView::Over,
        }
    }
}

/// The contents of a [`Job`].
pub struct JobView {
    pub pins: Map<Seq<char>, PinView>,
    pub phase: PhaseView,
}

/// What one step comes to.
pub struct StepView {
    pub job: JobView,
    pub said: Seq<Seq<char>>,
    pub action: ActionView,
}

/// A step that leaves nothing to do.
pub open spec fn over(pins: Map<Seq<char>, PinView>, said: Seq<Seq<char>>) -> StepView {
    StepView { job: JobView { pins, phase: PhaseView::Over }, said, action: ActionView::Stop }
}

/// A step after which the pins are written.
pub open spec fn writing(
    pins: Map<Seq<char>, PinView>,
    said: Seq<Seq<char>>,
    afterwards: Seq<Seq<char>>,
) -> StepView {
    StepView {
        job: JobView { pins, phase: PhaseView::Writing(afterwards) },
        said,
        action: ActionView::Write,
    }
}

/// A step after which the first of these is updated; where there is none, the
/// pins are written.
pub open spec fn updating(
    pins: Map<Seq<char>, PinView>,
    said: Seq<Seq<char>>,
    rest: Seq<Seq<char>>,
) -> StepView {
    if rest.len() == 0 {
        writing(pins, said, Seq::empty())
    } else {
        StepView {
            job: JobView { pins, phase: PhaseView::Updating(rest) },
            said,
            action: ActionView::Update(rest[0]),
        }
    }
}

/// A step after which the first of these is looked for; where there is none,
/// what was installed again is said.
pub open spec fn looking(
    pins: Map<Seq<char>, PinView>,
    rest: Seq<WantedView>,
    restored: Seq<Seq<char>>,
) -> StepView {
    if rest.len() == 0 {
        over(pins, seq![sync_text(restored)])
    } else {
        StepView {
            job: JobView { pins, phase: PhaseView::Looking { rest, restored } },
            said: Seq::empty(),
            action: ActionView::Find(rest[0].name),
        }
    }
}

/// The first step of a command.
pub open spec fn begun(pins: Map<Seq<char>, PinView>, command: CommandView) -> StepView {
    match command {
        CommandView::Add(w) => StepView {
            job: JobView { pins, phase: PhaseView::Adding(w.name) },
            said: Seq::empty(),
            action: ActionView::Install(w),
        },
        CommandView::Update(asked) => {
            let names = if asked.len() > 0 {
                asked
            } else {
                names_of(pins)
            };
            let said = if names.len() == 0 {
                seq!["nothing is installed"@]
            } else {
                Seq::empty()
            };
            updating(pins, said, names)
        },
        CommandView::Sync => looking(pins, pinned_plugins(pins), Seq::empty()),
        CommandView::Remove(name) => StepView {
            job: JobView { pins, phase: PhaseView::Deleting(name) },
            said: Seq::empty(),
            action: ActionView::Delete(name),
        },
        CommandView::List => StepView {
            job: JobView { pins, phase: PhaseView::Listing },
            said: Seq::empty(),
            action: ActionView::List,
        },
        CommandView::Help => over(pins, seq![usage_text()]),
    }
}

/// What is said of the plugins in the two directories.
pub open spec fn list_said(
    pins: Map<Seq<char>, PinView>,
    start: Seq<Seq<char>>,
    opt: Seq<Seq<char>>,
) -> Seq<Seq<char>> {
    let lines = listed(pins, sorted_texts(start), Kind::Start) + listed(
        pins,
        sorted_texts(opt),
        Kind::Opt,
    );
    if lines.len() == 0 {
        seq!["nothing is installed"@]
    } else {
        lines
    }
}

/// One step. Work that failed, or that was not asked for, ends it: nothing more
/// is done or said, and what is pinned stays.
pub open spec fn stepped(job: JobView, event: EventView) -> StepView {
    let pins = job.pins;
    match (job.phase, event) {
        (PhaseView::Asked(command), EventView::Begin) => begun(pins, command),
        (PhaseView::Adding(name), EventView::Pinned(pin)) => writing(
            pins.insert(name, pin),
            seq![add_text(name, pin.rev)],
            Seq::empty(),
        ),
        (PhaseView::Updating(rest), EventView::Pinned(pin)) => if rest.len() == 0 {
            over(pins, Seq::empty())
        } else {
            updating(
                pins.insert(rest[0], pin),
                seq![update_text(pins, rest[0], pin.rev)],
                rest.drop_first(),
            )
        },
        (PhaseView::Looking { rest, restored }, EventView::Found(there)) => if rest.len() == 0 {
            over(pins, Seq::empty())
        } else if there {
            looking(pins, rest.drop_first(), restored)
        } else {
            StepView {
                job: JobView {
                    pins,
                    phase: PhaseView::Restoring {
                        rest: rest.drop_first(),
                        restored: restored.push(rest[0].name),
                    },
                },
                said: Seq::empty(),
                action: ActionView::Install(rest[0]),
            }
        },
        (PhaseView::Restoring { rest, restored }, EventView::Pinned(_)) => looking(
            pins,
            rest,
            restored,
        ),
        (PhaseView::Deleting(name), EventView::Gone) => writing(
            pins.remove(name),
            Seq::empty(),
            seq!["removed "@ + name],
        ),
        (PhaseView::Listing, EventView::Listed { start, opt }) => over(
            pins,
            list_said(pins, start, opt),
        ),
        (PhaseView::Writing(said), EventView::Written) => over(pins, said),
        (_, _) => over(pins, Seq::empty()),
    }
}

/// The program at work on a command.
#[derive(Debug)]
pub struct Job {
    lock: Lock,
    phase: Phase,
}

impl View for Job {
    type V = JobView;

    closed spec fn view(&self) -> JobView {
        JobView { pins: self.lock@, phase: self.phase@ }
    }
}

/// What to say, and the work that comes next.
#[derive(Debug, PartialEq, Eq)]
pub struct Step {
    pub said: Vec<String>,
    pub action: Action,
}

/// Whether a step says and asks what it should.
pub open spec fn says(step: Step, s: StepView) -> bool {
    texts_view(step.said@) == s.said && step.action@ == s.action
}

fn one(line: String) -> (v: Vec<String>)
    ensures
        texts_view(v@) == seq![line@],
{
    let v = vec![line];
    assert(texts_view(v@) =~= seq![line@]);
    v
}

fn none() -> (v: Vec<String>)
    ensures
        texts_view(v@) == Seq::<Seq<char>>::empty(),
{
    let v: Vec<String> = Vec::new();
    assert(texts_view(v@) =~= Seq::<Seq<char>>::empty());
    v
}

impl Job {
    /// A command that is about to be carried out.
    pub fn new(lock: Lock, command: Command) -> (j: Self)
        ensures
            j@ == (JobView { pins: lock@, phase: PhaseView::Asked(command@) }),
    {
        Job { lock, phase: Phase::Asked(command) }
    }

    /// What is pinned.
    pub fn lock(&self) -> (l: &Lock)
        ensures
            l@ == self@.pins,
    {
        &self.lock
    }

    fn go_updating(&mut self, said: Vec<String>, rest: Vec<String>) -> (s: Step)
        ensures
            says(s, updating(old(self)@.pins, texts_view(said@), texts_view(rest@))),
            final(self)@ == updating(old(self)@.pins, texts_view(said@), texts_view(rest@)).job,
    {
        if rest.len() == 0 {
            self.phase = Phase::Writing(none());
            return Step { said, action: Action::Write };
        }
        let name = rest[0].clone();
        self.phase = Phase::Updating(rest);
        Step { said, action: Action::Update(name) }
    }

    fn go_looking(&mut self, rest: Vec<Wanted>, restored: Vec<String>) -> (s: Step)
        ensures
            says(s, looking(old(self)@.pins, wanted_views(rest@), texts_view(restored@))),
            final(self)@ == looking(
                old(self)@.pins,
                wanted_views(rest@),
                texts_view(restored@),
            ).job,
    {
        if rest.len() == 0 {
            self.phase = Phase::Over;
            return Step { said: one(sync_line(&restored)), action: Action::Stop };
        }
        let name = rest[0].plugin.name.clone();
        self.phase = Phase::Looking { rest, restored };
        Step { said: none(), action: Action::Find(name) }
    }

    fn begin(&mut self, command: Command) -> (s: Step)
        ensures
            says(s, begun(old(self)@.pins, command@)),
            final(self)@ == begun(old(self)@.pins, command@).job,
    {
        match command {
            Command::Add { plugin, kind } => {
                self.phase = Phase::Adding(plugin.name.clone());
                Step { said: none(), action: Action::Install(Wanted { plugin, kind, rev: None }) }
            },
            Command::Update(asked) => {
                let names = names_to_update(&self.lock, asked);
                let said = if names.len() == 0 {
                    one("nothing is installed".to_owned())
                } else {
                    none()
                };
                self.go_updating(said, names)
            },
            Command::Sync => {
                let rest = all_pinned(&self.lock);
                self.go_looking(rest, none())
            },
            Command::Remove(name) => {
                self.phase = Phase::Deleting(name.clone());
                Step { said: none(), action: Action::Delete(name) }
            },
            Command::List => {
                self.phase = Phase::Listing;
                Step { said: none(), action: Action::List }
            },
            Command::Help => {
                self.phase = Phase::Over;
                Step { said: one(usage()), action: Action::Stop }
            },
        }
    }

    /// One step: takes what came of the work, and says what comes next. After
    /// work that failed the pins are as they were, and nothing writes them.
    pub fn step(&mut self, event: Event) -> (s: Step)
        ensures
            says(s, stepped(old(self)@, event@)),
            final(self)@ == stepped(old(self)@, event@).job,
            event is Failed ==> final(self)@.pins == old(self)@.pins && s.action is Stop
                && s.said@.len() == 0,
    {
        let mut phase = Phase::Over;
        std::mem::swap(&mut phase, &mut self.phase);
        match (phase, event) {
            (Phase::Asked(command), Event::Begin) => self.begin(command),
            (Phase::Adding(name), Event::Pinned(pin)) => {
                let line = add_line(name.as_str(), pin.rev.as_str());
                self.lock.insert(name, pin);
                self.phase = Phase::Writing(none());
                Step { said: one(line), action: Action::Write }
            },
            (Phase::Updating(rest), Event::Pinned(pin)) => self.updated(rest, pin),
            (Phase::Looking { rest, restored }, Event::Found(there)) => self.looked(
                rest,
                restored,
                there,
            ),
            (Phase::Restoring { rest, restored }, Event::Pinned(_)) => self.go_looking(
                rest,
                restored,
            ),
            (Phase::Deleting(name), Event::Gone) => {
                self.lock.remove(name.as_str());
                self.phase = Phase::Writing(one(join("removed ", name.as_str())));
                Step { said: none(), action: Action::Write }
            },
            (Phase::Listing, Event::Listed { start, opt }) => {
                let lines = list(&self.lock, start, opt);
                let said = if lines.len() == 0 {
                    one("nothing is installed".to_owned())
                } else {
                    lines
                };
                Step { said, action: Action::Stop }
            },
            (Phase::Writing(said), Event::Written) => Step { said, action: Action::Stop },
            (_, _) => Step { said: none(), action: Action::Stop },
        }
    }

    fn updated(&mut self, rest: Vec<String>, pin: Pin) -> (s: Step)
        requires
            old(self)@.phase is Over,
        ensures
            ({
                let from = JobView {
                    pins: old(self)@.pins,
                    phase: PhaseView::Updating(texts_view(rest@)),
                };
                let to = stepped(from, EventView::Pinned(pin@));
                says(s, to) && final(self)@ == to.job
            }),
    {
        let mut rest = rest;
        if rest.len() == 0 {
            return Step { said: none(), action: Action::Stop };
        }
        let ghost all = texts_view(rest@);
        let name = rest.remove(0);
        assert(texts_view(rest@) =~= all.drop_first());
        let line = self.lock.update_line(name.as_str(), pin.rev.as_str());
        self.lock.insert(name, pin);
        self.go_updating(one(line), rest)
    }

    fn looked(&mut self, rest: Vec<Wanted>, restored: Vec<String>, there: bool) -> (s: Step)
        requires
            old(self)@.phase is Over,
        ensures
            ({
                let from = JobView {
                    pins: old(self)@.pins,
                    phase: PhaseView::Looking {
                        rest: wanted_views(rest@),
                        restored: texts_view(restored@),
                    },
                };
                let to = stepped(from, EventView::Found(there));
                says(s, to) && final(self)@ == to.job
            }),
    {
        let mut rest = rest;
        if rest.len() == 0 {
            return Step { said: none(), action: Action::Stop };
        }
        let ghost all = wanted_views(rest@);
        let first = rest.remove(0);
        assert(wanted_views(rest@) =~= all.drop_first());
        if there {
            return self.go_looking(rest, restored);
        }
        let mut restored = restored;
        let ghost before = texts_view(restored@);
        restored.push(first.plugin.name.clone());
        assert(texts_view(restored@) =~= before.push(first@.name));
        self.phase = Phase::Restoring { rest, restored };
        Step { said: none(), action: Action::Install(first) }
    }
}

/// How far the program is after the first of some events.
pub open spec fn after(job: JobView, events: Seq<EventView>, n: nat) -> JobView
    decreases n,
{
    if n == 0 {
        job
    } else {
        stepped(after(job, events, (n - 1) as nat), events[n - 1]).job
    }
}

/// The work that an event of a run leads to.
pub open spec fn asked_at(job: JobView, events: Seq<EventView>, k: nat) -> ActionView {
    stepped(after(job, events, k), events[k as int]).action
}

proof fn lemma_stays_over(job: JobView, events: Seq<EventView>, k: nat, n: nat)
    requires
        k <= n,
        after(job, events, k).phase is Over,
    ensures
        after(job, events, n) == after(job, events, k),
    decreases n,
{
    if k < n {
        lemma_stays_over(job, events, k, (n - 1) as nat);
    }
}

/// Once work fails, nothing is asked for any more: the pins are not written,
/// and they stay as they were before.
pub proof fn nothing_is_written_after_a_failure(
    job: JobView,
    events: Seq<EventView>,
    k: nat,
    n: nat,
)
    requires
        k <= n < events.len(),
        events[k as int] is Failed,
    ensures
        asked_at(job, events, n) is Stop,
        after(job, events, n + 1).pins == after(job, events, k).pins,
{
    assert(after(job, events, k + 1) == stepped(after(job, events, k), events[k as int]).job);
    if k < n {
        lemma_stays_over(job, events, k + 1, n);
        assert(after(job, events, n + 1) == stepped(after(job, events, n), events[n as int]).job);
    }
}

/// The pins are written once, as the last work, and as they then are.
pub proof fn the_pins_are_written_last(job: JobView, events: Seq<EventView>, k: nat, n: nat)
    requires
        k < n < events.len(),
        asked_at(job, events, k) is Write,
    ensures
        asked_at(job, events, n) is Stop,
        after(job, events, n + 1).pins == after(job, events, k + 1).pins,
{
    assert(after(job, events, k + 1) == stepped(after(job, events, k), events[k as int]).job);
    assert(after(job, events, k + 1).phase is Writing);
    assert(after(job, events, k + 2) == stepped(
        after(job, events, k + 1),
        events[k as int + 1],
    ).job);
    if k + 1 < n {
        lemma_stays_over(job, events, k + 2, n);
        assert(after(job, events, n + 1) == stepped(after(job, events, n), events[n as int]).job);
    }
}

/// Whether the program is one that only reads the pins.
pub open spec fn only_reads(phase: PhaseView) -> bool {
    match phase {
        PhaseView::Asked(c) => c is Sync || c is List || c is Help,
        PhaseView::Looking { rest, restored } => true,
        PhaseView::Restoring { rest, restored } => true,
        PhaseView::Listing => true,
        PhaseView::Over => true,
        _ => false,
    }
}

/// Installing what is pinned, listing and help pin nothing and write nothing,
/// whatever happens.
pub proof fn reading_commands_leave_the_pins(job: JobView, events: Seq<EventView>, n: nat)
    requires
        only_reads(job.phase),
        n < events.len(),
    ensures
        after(job, events, n).pins == job.pins,
        only_reads(after(job, events, n).phase),
        !(asked_at(job, events, n) is Write),
    decreases n,
{
    if n > 0 {
        reading_commands_leave_the_pins(job, events, (n - 1) as nat);
    }
}

/// What a job asks to be installed, and what it says at its end, where looking
/// finds the names in `present` and installing always succeeds.
pub open spec fn restored(
    job: JobView,
    event: EventView,
    present: Seq<Seq<char>>,
    pin: PinView,
    fuel: nat,
) -> (Seq<WantedView>, Seq<Seq<char>>)
    decreases fuel,
{
    let s = stepped(job, event);
    if fuel == 0 {
        (Seq::empty(), s.said)
    } else {
        match s.action {
            ActionView::Find(name) => restored(
                s.job,
                EventView::Found(present.contains(name)),
                present,
                pin,
                (fuel - 1) as nat,
            ),
            ActionView::Install(w) => {
                let later = restored(
                    s.job,
                    EventView::Pinned(pin),
                    present,
                    pin,
                    (fuel - 1) as nat,
                );
                (seq![w] + later.0, later.1)
            },
            _ => (Seq::empty(), s.said),
        }
    }
}

/// The names of plugins.
pub open spec fn plugin_names(v: Seq<WantedView>) -> Seq<Seq<char>> {
    v.map_values(|w: WantedView| w.name)
}

proof fn lemma_restored(
    pins: Map<Seq<char>, PinView>,
    rest: Seq<WantedView>,
    done: Seq<Seq<char>>,
    present: Seq<Seq<char>>,
    pin: PinView,
    fuel: nat,
)
    requires
        rest.len() > 0,
        fuel >= 2 * rest.len(),
    ensures
        ({
            let job = JobView { pins, phase: PhaseView::Looking { rest, restored: done } };
            let missing = rest.filter(is_missing(present));
            restored(job, EventView::Found(present.contains(rest[0].name)), present, pin, fuel) == (
                missing,
                seq![sync_text(done + plugin_names(missing))],
            )
        }),
    decreases rest.len(),
{
    let job = JobView { pins, phase: PhaseView::Looking { rest, restored: done } };
    let first = rest[0];
    let later = rest.drop_first();
    let wanted = is_missing(present);
    let missing = rest.filter(wanted);
    let there = present.contains(first.name);
    assert(rest =~= seq![first] + later);
    Seq::filter_distributes_over_add(seq![first], later, wanted);
    reveal(Seq::filter);
    assert(seq![first].drop_last() =~= Seq::empty());
    assert(seq![first].drop_last().filter(wanted) =~= Seq::empty());
    if there {
        assert(seq![first].filter(wanted) =~= Seq::empty());
        assert(missing =~= later.filter(wanted));
        if later.len() > 0 {
            lemma_restored(pins, later, done, present, pin, (fuel - 1) as nat);
        } else {
            assert(later.filter(wanted) =~= Seq::empty());
            assert(done + plugin_names(missing) =~= done);
        }
    } else {
        assert(seq![first].filter(wanted) =~= seq![first]);
        let more = done.push(first.name);
        let next = JobView { pins, phase: PhaseView::Restoring { rest: later, restored: more } };
        let rest_missing = later.filter(wanted);
        assert(missing =~= seq![first] + rest_missing);
        assert(more + plugin_names(rest_missing) =~= done + plugin_names(missing));
        if later.len() > 0 {
            lemma_restored(pins, later, more, present, pin, (fuel - 2) as nat);
        } else {
            assert(rest_missing =~= Seq::empty());
            assert(more + plugin_names(rest_missing) =~= more);
            assert(missing =~= seq![first]);
        }
        assert(restored(next, EventView::Pinned(pin), present, pin, (fuel - 1) as nat) == (
            rest_missing,
            seq![sync_text(more + plugin_names(rest_missing))],
        ));
    }
}

/// Restoring installs every pinned plugin that is missing, in order and at the
/// revision that it is pinned to, and says so.
pub proof fn restoring_installs_what_is_missing(
    pins: Map<Seq<char>, PinView>,
    present: Seq<Seq<char>>,
    pin: PinView,
    fuel: nat,
)
    requires
        fuel > 2 * names_of(pins).len(),
    ensures
        ({
            let job = JobView { pins, phase: PhaseView::Asked(CommandView::Sync) };
            let missing = missing_plugins(pins, present);
            restored(job, EventView::Begin, present, pin, fuel) == (
                missing,
                seq![sync_text(plugin_names(missing))],
            )
        }),
{
    let rest = pinned_plugins(pins);
    let missing = missing_plugins(pins, present);
    assert(Seq::<Seq<char>>::empty() + plugin_names(missing) =~= plugin_names(missing));
    if rest.len() > 0 {
        lemma_restored(pins, rest, Seq::empty(), present, pin, (fuel - 1) as nat);
    } else {
        reveal(Seq::filter);
        assert(missing =~= Seq::empty());
        assert(plugin_names(missing) =~= Seq::empty());
    }
}

/// Installing a plugin pins it to what it landed on, leaves the other pins, and
/// writes them.
pub proof fn an_installed_plugin_is_pinned(
    pins: Map<Seq<char>, PinView>,
    w: WantedView,
    pin: PinView,
    other: Seq<char>,
)
    requires
        other != w.name,
    ensures
        ({
            let job = JobView { pins, phase: PhaseView::Asked(CommandView::Add(w)) };
            let first = stepped(job, EventView::Begin);
            let second = stepped(first.job, EventView::Pinned(pin));
            &&& first.action == ActionView::Install(w)
            &&& first.job.pins == pins
            &&& second.action is Write
            &&& second.job.pins.contains_key(w.name)
            &&& second.job.pins[w.name] == pin
            &&& second.job.pins.contains_key(other) == pins.contains_key(other)
            &&& pins.contains_key(other) ==> second.job.pins[other] == pins[other]
            &&& second.said.len() == 1
            &&& stepped(second.job, EventView::Written).said.len() == 0
            &&& stepped(second.job, EventView::Written).action is Stop
        }),
{
}

/// Deleting a plugin forgets its pin and no other, and says so once the pins
/// are written.
pub proof fn a_deleted_plugin_is_forgotten(
    pins: Map<Seq<char>, PinView>,
    name: Seq<char>,
    other: Seq<char>,
)
    requires
        other != name,
    ensures
        ({
            let job = JobView { pins, phase: PhaseView::Asked(CommandView::Remove(name)) };
            let first = stepped(job, EventView::Begin);
            let second = stepped(first.job, EventView::Gone);
            let third = stepped(second.job, EventView::Written);
            &&& first.action == ActionView::Delete(name)
            &&& first.job.pins == pins
            &&& second.action is Write
            &&& !second.job.pins.contains_key(name)
            &&& second.job.pins.contains_key(other) == pins.contains_key(other)
            &&& pins.contains_key(other) ==> second.job.pins[other] == pins[other]
            &&& second.said.len() == 0
            &&& third.action is Stop
            &&& third.said.len() == 1
            &&& third.said[0] == "removed "@ + name
        }),
{
}

/// Updates go through the names in their order, one after another: each is
/// pinned to what it came to, and after the last the pins are written.
pub proof fn updates_go_through_every_name(
    pins: Map<Seq<char>, PinView>,
    rest: Seq<Seq<char>>,
    pin: PinView,
)
    requires
        rest.len() > 0,
    ensures
        ({
            let job = JobView { pins, phase: PhaseView::Updating(rest) };
            let next = stepped(job, EventView::Pinned(pin));
            &&& next.job.pins == pins.insert(rest[0], pin)
            &&& next.said.len() == 1
            &&& rest.len() == 1 ==> next.action is Write
            &&& rest.len() > 1 ==> next.action == ActionView::Update(rest[1]) && next.job.phase
                == PhaseView::Updating(rest.skip(1))
        }),
{
    assert(rest.drop_first() =~= rest.skip(1));
}

/// An update without names is one of everything that is pinned, and one with
/// names is of those.
pub proof fn an_update_begins_with_the_first_name(
    pins: Map<Seq<char>, PinView>,
    asked: Seq<Seq<char>>,
)
    ensures
        ({
            let job = JobView { pins, phase: PhaseView::Asked(CommandView::Update(asked)) };
            let first = stepped(job, EventView::Begin);
            &&& first.job.pins == pins
            &&& asked.len() > 0 ==> first.action == ActionView::Update(asked[0])
                && first.job.phase == PhaseView::Updating(asked) && first.said.len() == 0
            &&& asked.len() == 0 && names_of(pins).len() > 0 ==> first.action
                == ActionView::Update(names_of(pins)[0]) && first.job.phase == PhaseView::Updating(
                names_of(pins),
            )
            &&& asked.len() == 0 && names_of(pins).len() == 0 ==> first.action is Write
                && first.said.len() == 1
        }),
{
}

/// What runs at the start is listed before what waits to be named, a line for
/// each; where there is neither, one line says so.
pub proof fn what_runs_at_the_start_is_listed_first(
    pins: Map<Seq<char>, PinView>,
    start: Seq<Seq<char>>,
    opt: Seq<Seq<char>>,
    i: int,
)
    requires
        start.len() + opt.len() > 0,
        0 <= i < start.len() + opt.len(),
    ensures
        list_said(pins, start, opt).len() == start.len() + opt.len(),
        i < start.len() ==> list_said(pins, start, opt)[i] == list_line(
            pins,
            sorted_texts(start)[i],
            Kind::Start,
        ),
        i >= start.len() ==> list_said(pins, start, opt)[i] == list_line(
            pins,
            sorted_texts(opt)[i - start.len()],
            Kind::Opt,
        ),
        list_said(pins, Seq::empty(), Seq::empty()).len() == 1,
{
    lemma_sorted_length(start);
    lemma_sorted_length(opt);
    lemma_sorted_length(Seq::empty());
}

} // verus!
