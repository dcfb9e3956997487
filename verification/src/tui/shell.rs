//! The state of the terminal: what it observed becomes events, and what it is
//! given becomes rows.
use vstd::prelude::*;

use crate::tui::input::Modifiers;
use crate::tui::input::TermKey;
use crate::tui::lane::GUTTER;
use crate::tui::preview::Band;
use crate::tui::preview::lines_view;
use crate::tui::render::Surface;
use crate::tui::render::command_height;
use crate::tui::render::command_rows;
use crate::tui::render::lane_rows;
use crate::tui::render::left_of;
use crate::tui::render::lines;
use crate::tui::render::picker_in;
use crate::tui::render::plain;
use crate::tui::render::screen;
use crate::tui::render::some;
use crate::tui::render::subtitle_in;
use crate::tui::render::surface;
use crate::tui::style::Span;
use crate::tui::style::SpanView;
use crate::tui::style::cells_of;
use crate::tui::style::chars_in;
use crate::tui::view::Label;
use crate::tui::view::Overlay;
use crate::tui::view::ViewState;

verus! {

/// Something that the terminal observed.
#[derive(Clone, Copy, Debug, PartialEq, Eq, Structural)]
pub enum TermEvent {
    Key(TermKey, Modifiers),
    Resize { width: u16, height: u16 },
    /// A click, in cells.
    Click { column: u16, row: u16 },
    /// Time passed.
    Tick,
    /// The terminal went away.
    Closed,
}

/// Something for the editor.
#[derive(Clone, Copy, Debug, PartialEq, Eq, Structural)]
pub enum Event {
    Key(TermKey, Modifiers),
    Resize(Surface),
    /// Where the timeline was clicked; a click on the ruler has no row.
    Click { column: u32, row: Option<usize> },
    Tick,
    Quit,
}

/// A key of what is open over the timeline.
#[derive(Clone, Copy, Debug, PartialEq, Eq, Structural)]
pub enum ModalKey {
    Char(char),
    Escape,
    Enter,
    Backspace,
    Tab,
    Left,
    Right,
    Up,
    Down,
}

/// The key as what is open over the timeline knows it.
pub open spec fn modal_name(key: TermKey) -> Option<ModalKey> {
    match key {
        TermKey::Char(c) => Some(ModalKey::Char(c)),
        TermKey::Escape => Some(ModalKey::Escape),
        TermKey::Enter => Some(ModalKey::Enter),
        TermKey::Backspace => Some(ModalKey::Backspace),
        TermKey::Tab => Some(ModalKey::Tab),
        TermKey::Left => Some(ModalKey::Left),
        TermKey::Right => Some(ModalKey::Right),
        TermKey::Up => Some(ModalKey::Up),
        TermKey::Down => Some(ModalKey::Down),
        TermKey::Other => None,
    }
}

pub fn modal_key(key: TermKey) -> (m: Option<ModalKey>)
    ensures
        m == modal_name(key),
{
    match key {
        TermKey::Char(c) => Some(ModalKey::Char(c)),
        TermKey::Escape => Some(ModalKey::Escape),
        TermKey::Enter => Some(ModalKey::Enter),
        TermKey::Backspace => Some(ModalKey::Backspace),
        TermKey::Tab => Some(ModalKey::Tab),
        TermKey::Left => Some(ModalKey::Left),
        TermKey::Right => Some(ModalKey::Right),
        TermKey::Up => Some(ModalKey::Up),
        TermKey::Down => Some(ModalKey::Down),
        TermKey::Other => None,
    }
}

/// What became of an observation.
#[derive(Clone, Copy, Debug, PartialEq, Eq, Structural)]
pub enum Step {
    /// Nothing was waiting.
    Idle,
    /// It was handled.
    Done,
    /// It belongs to what is open over the timeline, if that wants it;
    /// otherwise it is an ordinary key.
    Ask(ModalKey, TermKey, Modifiers),
}

/// The key that is offered to what is open: chords are never offered.
pub open spec fn offered(open: bool, key: TermKey, mods: Modifiers) -> Option<ModalKey> {
    if open && !mods.ctrl && !mods.alt {
        modal_name(key)
    } else {
        None
    }
}

/// The state of the terminal.
#[derive(Debug)]
pub struct Tui {
    width: u16,
    height: u16,
    pending: Vec<TermEvent>,
    out: Vec<Event>,
    /// The rows of the command line when the screen was last drawn.
    command_rows: u16,
    last_lines: Vec<Vec<Span>>,
    quit: bool,
}

/// The contents of a [`Tui`].
pub struct TuiView {
    pub width: u16,
    pub height: u16,
    pub pending: Seq<TermEvent>,
    pub out: Seq<Event>,
    pub command_rows: u16,
    pub lines: Seq<Seq<SpanView>>,
    pub quit: bool,
}

impl View for Tui {
    type V = TuiView;

    closed spec fn view(&self) -> TuiView {
        TuiView {
            width: self.width,
            height: self.height,
            pending: self.pending@,
            out: self.out@,
            command_rows: self.command_rows,
            lines: lines_view(self.last_lines@),
            quit: self.quit,
        }
    }
}

/// The area that a terminal offers.
pub open spec fn area(width: u16, height: u16, rows: u16) -> Surface {
    Surface {
        columns: left_of(width as int, GUTTER as int) as u32,
        rows: lane_rows(height as int, rows as int, 0) as usize,
        thumbnail_columns: 0,
        cell_columns: left_of(width as int, GUTTER as int) as u32,
        cell_rows: some(height - 1 - rows) as u32,
    }
}

/// The state after an observation, where nothing is offered it first.
pub open spec fn handled(t: TuiView, e: TermEvent) -> TuiView {
    match e {
        TermEvent::Key(key, mods) => TuiView { out: t.out.push(Event::Key(key, mods)), ..t },
        TermEvent::Resize { width, height } => TuiView {
            width,
            height,
            out: t.out.push(Event::Resize(area(width, height, t.command_rows))),
            ..t
        },
        TermEvent::Click { column, row } => if column < GUTTER {
            t
        } else {
            TuiView {
                out: t.out.push(
                    Event::Click {
                        column: (column - GUTTER) as u32,
                        row: if row > 0 {
                            Some((row - 1) as usize)
                        } else {
                            None
                        },
                    },
                ),
                ..t
            }
        },
        TermEvent::Tick => TuiView { out: t.out.push(Event::Tick), ..t },
        TermEvent::Closed => TuiView { quit: true, out: t.out.push(Event::Quit), ..t },
    }
}

/// The state after the first `n` observations.
pub open spec fn all_handled(t: TuiView, events: Seq<TermEvent>, n: int) -> TuiView
    decreases n,
{
    if n <= 0 {
        t
    } else {
        handled(all_handled(t, events, n - 1), events[n - 1])
    }
}

/// What a step does.
pub open spec fn stepped(t: TuiView, open: bool) -> (TuiView, Step) {
    if t.pending.len() == 0 {
        (t, Step::Idle)
    } else {
        let e = t.pending[0];
        let rest = TuiView { pending: t.pending.skip(1), ..t };
        match e {
            TermEvent::Key(key, mods) => match offered(open, key, mods) {
                Some(m) => (rest, Step::Ask(m, key, mods)),
                None => (handled(rest, e), Step::Done),
            },
            _ => (handled(rest, e), Step::Done),
        }
    }
}

/// A session of keys reaches the editor whole, and in order.
pub proof fn no_key_is_lost(t: TuiView, keys: Seq<(TermKey, Modifiers)>, n: int)
    requires
        0 <= n <= keys.len(),
    ensures
        ({
            let events = Seq::new(keys.len(), |i: int| TermEvent::Key(keys[i].0, keys[i].1));
            all_handled(t, events, n).out == t.out + Seq::new(
                n as nat,
                |i: int| Event::Key(keys[i].0, keys[i].1),
            )
        }),
    decreases n,
{
    let events = Seq::new(keys.len(), |i: int| TermEvent::Key(keys[i].0, keys[i].1));
    if n > 0 {
        no_key_is_lost(t, keys, n - 1);
    }
    assert(all_handled(t, events, n).out =~= t.out + Seq::new(
        n as nat,
        |i: int| Event::Key(keys[i].0, keys[i].1),
    ));
}

/// A chord is never offered to what is open over the timeline.
pub proof fn a_chord_reaches_the_editor(t: TuiView, open: bool, key: TermKey, mods: Modifiers)
    requires
        t.pending.len() > 0,
        t.pending[0] == TermEvent::Key(key, mods),
        mods.ctrl || mods.alt,
    ensures
        stepped(t, open).1 == Step::Done,
        stepped(t, open).0.out == t.out.push(Event::Key(key, mods)),
{
}

impl Tui {
    pub fn new(width: u16, height: u16) -> (t: Self)
        ensures
            t@ == (TuiView {
                width,
                height,
                pending: Seq::empty(),
                out: Seq::empty(),
                command_rows: 0,
                lines: Seq::empty(),
                quit: false,
            }),
    {
        let t = Tui {
            width,
            height,
            pending: Vec::new(),
            out: Vec::new(),
            command_rows: 0,
            last_lines: Vec::new(),
            quit: false,
        };
        assert(t@.lines =~= Seq::<Seq<SpanView>>::empty());
        t
    }

    /// Takes note of what the terminal observed.
    pub fn push(&mut self, event: TermEvent)
        ensures
            final(self)@ == (TuiView { pending: old(self)@.pending.push(event), ..old(self)@ }),
    {
        self.pending.push(event);
    }

    pub fn wants_quit(&self) -> (b: bool)
        ensures
            b == self@.quit,
    {
        self.quit
    }

    /// The rows that were drawn last.
    pub fn last_lines(&self) -> (lines: &Vec<Vec<Span>>)
        ensures
            lines_view(lines@) == self@.lines,
    {
        &self.last_lines
    }

    /// The rows that were drawn last, as plain text.
    pub fn last_rows(&self) -> (rows: Vec<String>)
        ensures
            rows@.len() == self@.lines.len(),
            forall|i: int|
                0 <= i < rows@.len() ==> (#[trigger] rows@[i])@ == chars_in(
                    cells_of(self@.lines[i]),
                ),
    {
        plain(&self.last_lines)
    }

    /// The area that the terminal offers.
    pub fn surface(&self) -> (s: Surface)
        ensures
            s == area(self@.width, self@.height, self@.command_rows),
    {
        surface(self.width, self.height, self.command_rows, 0)
    }

    /// The rows of a view at the size of the terminal.
    pub fn rows(
        &self,
        view: &ViewState,
        overlay: Overlay,
        band: &Band,
        labels: &Vec<Label>,
    ) -> (out: Vec<Vec<Span>>)
        ensures
            lines_view(out@) == screen(
                *view,
                picker_in(overlay),
                subtitle_in(overlay),
                self@.width as int,
                self@.height as int,
                band@,
                labels@,
            ),
    {
        lines(view, overlay, self.width, self.height, band, labels)
    }

    /// Draws a view.
    pub fn render(&mut self, view: &ViewState, overlay: Overlay, band: &Band, labels: &Vec<Label>)
        ensures
            final(self)@ == (TuiView {
                command_rows: command_height(view.command_line) as u16,
                lines: screen(
                    *view,
                    picker_in(overlay),
                    subtitle_in(overlay),
                    old(self)@.width as int,
                    old(self)@.height as int,
                    band@,
                    labels@,
                ),
                ..old(self)@
            }),
    {
        self.command_rows = command_rows(view);
        let drawn = self.rows(view, overlay, band, labels);
        self.last_lines = drawn;
    }

    fn handle(&mut self, event: TermEvent)
        ensures
            final(self)@ == handled(old(self)@, event),
    {
        match event {
            TermEvent::Resize { width, height } => {
                self.width = width;
                self.height = height;
                let s = self.surface();
                self.out.push(Event::Resize(s));
            },
            TermEvent::Tick => {
                self.out.push(Event::Tick);
            },
            TermEvent::Closed => {
                self.quit = true;
                self.out.push(Event::Quit);
            },
            TermEvent::Click { column, row } => {
                if column >= GUTTER {
                    let lane: Option<usize> = if row > 0 {
                        Some((row - 1) as usize)
                    } else {
                        None
                    };
                    self.out.push(Event::Click { column: (column - GUTTER) as u32, row: lane });
                }
            },
            TermEvent::Key(key, mods) => {
                self.handle_key(key, mods);
            },
        }
    }

    /// Takes a key that nothing open over the timeline wanted.
    pub fn handle_key(&mut self, key: TermKey, mods: Modifiers)
        ensures
            final(self)@ == handled(old(self)@, TermEvent::Key(key, mods)),
    {
        self.out.push(Event::Key(key, mods));
    }

    /// Handles the oldest observation, where `open` says whether something is
    /// open over the timeline.
    pub fn step(&mut self, open: bool) -> (s: Step)
        ensures
            (final(self)@, s) == stepped(old(self)@, open),
    {
        if self.pending.len() == 0 {
            return Step::Idle;
        }
        let ghost before = self.pending@;
        let event = self.pending.remove(0);
        assert(self.pending@ =~= before.skip(1));
        if let TermEvent::Key(key, mods) = event {
            if open && !mods.ctrl && !mods.alt {
                if let Some(m) = modal_key(key) {
                    return Step::Ask(m, key, mods);
                }
            }
        }
        self.handle(event);
        Step::Done
    }

    /// Takes the events so far.
    pub fn take_events(&mut self) -> (events: Vec<Event>)
        ensures
            events@ == old(self)@.out,
            final(self)@ == (TuiView { out: Seq::empty(), ..old(self)@ }),
    {
        let mut events: Vec<Event> = Vec::new();
        std::mem::swap(&mut events, &mut self.out);
        events
    }

    /// Handles every observation, where nothing is open over the timeline.
    pub fn poll(&mut self) -> (events: Vec<Event>)
        ensures
            ({
                let t = old(self)@;
                let end = all_handled(
                    TuiView { pending: Seq::empty(), ..t },
                    t.pending,
                    t.pending.len() as int,
                );
                events@ == end.out && final(self)@ == (TuiView { out: Seq::empty(), ..end })
            }),
    {
        let mut pending: Vec<TermEvent> = Vec::new();
        std::mem::swap(&mut pending, &mut self.pending);
        let ghost start = TuiView { pending: Seq::empty(), ..old(self)@ };
        let n: usize = pending.len();
        let mut i: usize = 0;
        while i < n
            invariant
                i <= n == pending@.len(),
                self@ == all_handled(start, pending@, i as int),
            decreases n - i,
        {
            self.handle(pending[i]);
            i = i + 1;
        }
        self.take_events()
    }
}

/// A click lands in the column that it was made in, counted from the gutter,
/// and on the lane below the ruler; one in the gutter lands nowhere.
pub proof fn a_click_lands_where_it_was_made(t: TuiView, column: u16, row: u16)
    ensures
        ({
            let after = handled(t, TermEvent::Click { column, row });
            &&& column < GUTTER ==> after == t
            &&& column >= GUTTER ==> {
                &&& after.out.len() == t.out.len() + 1
                &&& after.out.drop_last() == t.out
                &&& after.out.last() is Click
                &&& after.out.last()->column + GUTTER == column
                &&& row == 0 ==> after.out.last()->row is None
                &&& row > 0 ==> after.out.last()->row is Some && after.out.last()->row->Some_0 + 1
                    == row
                &&& after.width == t.width && after.height == t.height
            }
        }),
{
    let after = handled(t, TermEvent::Click { column, row });
    if column >= GUTTER {
        assert(after.out.drop_last() =~= t.out);
    }
}

/// A change of size is taken over and passed on, as the area that is left.
pub proof fn a_new_size_is_taken_over(t: TuiView, width: u16, height: u16)
    requires
        width >= GUTTER,
        height >= t.command_rows + 3,
    ensures
        ({
            let after = handled(t, TermEvent::Resize { width, height });
            &&& after.width == width
            &&& after.height == height
            &&& after.out.drop_last() == t.out
            &&& after.out.last() is Resize
            &&& after.out.last()->Resize_0.columns + GUTTER == width
            &&& after.out.last()->Resize_0.cell_columns + GUTTER == width
            &&& after.out.last()->Resize_0.rows + 2 + t.command_rows == height
            &&& after.out.last()->Resize_0.cell_rows + 1 + t.command_rows == height
            &&& after.out.last()->Resize_0.thumbnail_columns == 0
        }),
{
    assert(handled(t, TermEvent::Resize { width, height }).out.drop_last() =~= t.out);
}

/// A terminal that goes away asks to quit, and nothing else does.
pub proof fn only_a_closed_terminal_quits(t: TuiView, e: TermEvent)
    ensures
        handled(t, e).quit == (t.quit || e is Closed),
        e is Closed ==> handled(t, e).out == t.out.push(Event::Quit),
        e is Tick ==> handled(t, e).out == t.out.push(Event::Tick),
        handled(t, e).pending == t.pending,
        handled(t, e).lines == t.lines,
{
}

/// Observations are handled one at a time, the oldest first.
pub proof fn the_oldest_observation_is_handled(t: TuiView, open: bool)
    requires
        t.pending.len() > 0,
    ensures
        stepped(t, open).0.pending == t.pending.drop_first(),
        !(stepped(t, open).1 is Idle),
        !(t.pending[0] is Key) ==> stepped(t, open).1 == Step::Done && stepped(t, open).0.out
            == handled(t, t.pending[0]).out,
        t.pending[0] is Key && !open ==> stepped(t, open).1 == Step::Done && stepped(t, open).0.out
            == t.out.push(Event::Key(t.pending[0]->Key_0, t.pending[0]->Key_1)),
{
    assert(t.pending.skip(1) =~= t.pending.drop_first());
}

/// A plain key is offered to what is open over the timeline before it reaches
/// the editor, where it has a name there.
pub proof fn a_plain_key_is_offered_first(t: TuiView, key: TermKey, mods: Modifiers)
    requires
        t.pending.len() > 0,
        t.pending[0] == TermEvent::Key(key, mods),
        !mods.ctrl,
        !mods.alt,
        !(key is Other),
    ensures
        stepped(t, true).1 is Ask,
        stepped(t, true).1->Ask_1 == key,
        stepped(t, true).1->Ask_2 == mods,
        stepped(t, true).0.out == t.out,
{
}

/// A key has the same name wherever it goes.
pub proof fn a_key_keeps_its_name(c: char)
    ensures
        modal_name(TermKey::Char(c)) == Some(ModalKey::Char(c)),
        modal_name(TermKey::Escape) == Some(ModalKey::Escape),
        modal_name(TermKey::Enter) == Some(ModalKey::Enter),
        modal_name(TermKey::Backspace) == Some(ModalKey::Backspace),
        modal_name(TermKey::Tab) == Some(ModalKey::Tab),
        modal_name(TermKey::Left) == Some(ModalKey::Left),
        modal_name(TermKey::Right) == Some(ModalKey::Right),
        modal_name(TermKey::Up) == Some(ModalKey::Up),
        modal_name(TermKey::Down) == Some(ModalKey::Down),
        modal_name(TermKey::Other) is None,
{
}

} // verus!
