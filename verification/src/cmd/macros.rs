//! Recorded keystrokes.
//!
//! A macro is a list of input tokens, not of commands: replaying runs the keys
//! again, wherever the playhead is. What a token means is not decided here.
use vstd::prelude::*;
use vstd::string::*;

use crate::cmd::error::CmdError;
use crate::cmd::error::CmdErrorView;
use crate::text::lower;
use crate::text::lower_char;

verus! {

/// Whether a character is an upper-case letter.
pub uninterp spec fn is_upper(c: char) -> bool;

/// `char::is_uppercase`: whether a character has the Unicode property
/// Uppercase. Of the ASCII characters those are the letters `A` to `Z`.
pub assume_specification[ char::is_uppercase ](c: char) -> (b: bool)
    ensures
        b == is_upper(c),
        (c as int) < 128 ==> b == (65 <= c as int <= 90),
;

/// The contents of a list of tokens.
pub open spec fn tokens_view(v: Seq<String>) -> Seq<Seq<char>> {
    Seq::new(v.len(), |i: int| v[i]@)
}

fn copy_tokens(v: &Vec<String>) -> (c: Vec<String>)
    ensures
        tokens_view(c@) == tokens_view(v@),
{
    let mut c: Vec<String> = Vec::new();
    let mut i: usize = 0;
    while i < v.len()
        invariant
            i <= v@.len(),
            c@.len() == i,
            forall|k: int| 0 <= k < i ==> (#[trigger] c@[k])@ == v@[k]@,
        decreases v@.len() - i,
    {
        c.push(v[i].clone());
        i = i + 1;
    }
    assert(tokens_view(c@) =~= tokens_view(v@));
    c
}

/// The register buffers, and what is being recorded.
#[derive(Debug, PartialEq, Eq)]
pub struct MacroRecorder {
    /// Each register once.
    registers: Vec<(char, Vec<String>)>,
    recording: Option<(char, Vec<String>)>,
}

/// The state of a [`MacroRecorder`].
pub struct MacroView {
    pub registers: Map<char, Seq<Seq<char>>>,
    pub recording: Option<(char, Seq<Seq<char>>)>,
}

/// The first `n` registers.
pub open spec fn register_map(v: Seq<(char, Vec<String>)>, n: nat) -> Map<char, Seq<Seq<char>>>
    decreases n,
{
    if n == 0 {
        Map::empty()
    } else {
        register_map(v, (n - 1) as nat).insert(v[n - 1].0, tokens_view(v[n - 1].1@))
    }
}

proof fn lemma_register_map(v: Seq<(char, Vec<String>)>, n: nat, c: char)
    requires
        n <= v.len(),
        forall|i: int, j: int| 0 <= i < j < v.len() ==> (#[trigger] v[i]).0 != (#[trigger] v[j]).0,
    ensures
        register_map(v, n).contains_key(c) == exists|i: int| 0 <= i < n && (#[trigger] v[i]).0 == c,
        forall|i: int|
            0 <= i < n && (#[trigger] v[i]).0 == c ==> register_map(v, n)[c] == tokens_view(v[i].1@),
    decreases n,
{
    if n > 0 {
        lemma_register_map(v, (n - 1) as nat, c);
        if v[n - 1].0 != c && register_map(v, n).contains_key(c) {
            let i = choose|i: int| 0 <= i < n - 1 && (#[trigger] v[i]).0 == c;
            assert(v[i].0 == c);
        }
        if register_map(v, n).contains_key(c) && v[n - 1].0 == c {
            assert(v[n - 1].0 == c);
        }
    }
}

/// The tokens an appending register starts from.
pub open spec fn seed(m: MacroView, register: char) -> Seq<Seq<char>> {
    if is_upper(register) && m.registers.contains_key(lower_char(register)) {
        m.registers[lower_char(register)]
    } else {
        Seq::empty()
    }
}

/// The state once recording has stopped: the buffer is stored under the
/// register, and under its lower-case name.
pub open spec fn stopped(m: MacroView) -> MacroView {
    match m.recording {
        Some((register, buffer)) => MacroView {
            registers: m.registers.insert(lower_char(register), buffer).insert(register, buffer),
            recording: None,
        },
        None => m,
    }
}

impl MacroRecorder {
    pub closed spec fn view(self) -> MacroView {
        MacroView {
            registers: register_map(self.registers@, self.registers@.len()),
            recording: match self.recording {
                Some((c, v)) => Some((c, tokens_view(v@))),
                None => None,
            },
        }
    }

    /// No register occurs twice.
    pub closed spec fn wf(self) -> bool {
        forall|i: int, j: int|
            0 <= i < j < self.registers@.len() ==> (#[trigger] self.registers@[i]).0 != (
            #[trigger] self.registers@[j]).0
    }

    pub fn new() -> (m: Self)
        ensures
            m.wf(),
            m.view() == (MacroView { registers: Map::empty(), recording: None }),
    {
        MacroRecorder { registers: Vec::new(), recording: None }
    }

    /// The register that is being recorded into, if any.
    pub fn recording(&self) -> (r: Option<char>)
        ensures
            r == match self.view().recording {
                Some((c, _)) => Some(c),
                None => None,
            },
    {
        match &self.recording {
            Some((c, _)) => Some(*c),
            None => None,
        }
    }

    fn find(&self, register: char) -> (found: Option<usize>)
        requires
            self.wf(),
        ensures
            match found {
                Some(i) => i < self.registers@.len() && self.registers@[i as int].0 == register
                    && self.view().registers.contains_key(register)
                    && self.view().registers[register] == tokens_view(
                    self.registers@[i as int].1@,
                ),
                None => !self.view().registers.contains_key(register) && forall|k: int|
                    0 <= k < self.registers@.len() ==> (#[trigger] self.registers@[k]).0
                        != register,
            },
    {
        proof {
            lemma_register_map(self.registers@, self.registers@.len(), register);
        }
        let mut i: usize = 0;
        while i < self.registers.len()
            invariant
                self.wf(),
                i <= self.registers@.len(),
                forall|k: int| 0 <= k < i ==> (#[trigger] self.registers@[k]).0 != register,
            decreases self.registers@.len() - i,
        {
            if self.registers[i].0 == register {
                proof {
                    lemma_register_map(self.registers@, self.registers@.len(), register);
                    assert(self.registers@[i as int].0 == register);
                }
                return Some(i);
            }
            i = i + 1;
        }
        None
    }

    fn store(&mut self, register: char, tokens: Vec<String>)
        requires
            old(self).wf(),
        ensures
            final(self).wf(),
            final(self).view() == (MacroView {
                registers: old(self).view().registers.insert(register, tokens_view(tokens@)),
                ..old(self).view()
            }),
    {
        let ghost before = self.registers@;
        let ghost wanted = self.view().registers.insert(register, tokens_view(tokens@));
        let ghost buffer = tokens_view(tokens@);
        let found = self.find(register);
        match found {
            Some(i) => {
                self.registers.set(i, (register, tokens));
            },
            None => {
                self.registers.push((register, tokens));
            },
        }
        let ghost after = self.registers@;
        proof {
            assert(self.wf());
            assert forall|c: char| #[trigger] self.view().registers.contains_key(c)
                == wanted.contains_key(c) && (wanted.contains_key(c)
                ==> self.view().registers[c] == wanted[c]) by {
                lemma_register_map(before, before.len(), c);
                lemma_register_map(after, after.len(), c);
                let at: int = match found {
                    Some(i) => i as int,
                    None => before.len() as int,
                };
                assert(after[at].0 == register);
                assert(tokens_view(after[at].1@) == buffer);
                if c == register {
                    assert(after[at].0 == c);
                } else {
                    if exists|i: int| 0 <= i < before.len() && (#[trigger] before[i]).0 == c {
                        let i = choose|i: int| 0 <= i < before.len() && (#[trigger] before[i]).0 == c;
                        assert(after[i] == before[i]);
                        assert(after[i].0 == c);
                    }
                    if exists|i: int| 0 <= i < after.len() && (#[trigger] after[i]).0 == c {
                        let i = choose|i: int| 0 <= i < after.len() && (#[trigger] after[i]).0 == c;
                        assert(after[i] == before[i]);
                        assert(before[i].0 == c);
                    }
                }
            }
            assert(self.view().registers =~= wanted);
        }
    }

    /// Starts recording. An upper-case register appends to the lower-case one.
    pub fn start(&mut self, register: char) -> (r: Result<(), CmdError>)
        requires
            old(self).wf(),
        ensures
            final(self).wf(),
            match old(self).view().recording {
                Some((active, _)) => {
                    &&& r is Err && r->Err_0@ == CmdErrorView::AlreadyRecording(active)
                    &&& final(self).view() == old(self).view()
                },
                None => {
                    &&& r is Ok
                    &&& final(self).view() == (MacroView {
                        recording: Some((register, seed(old(self).view(), register))),
                        ..old(self).view()
                    })
                },
            },
    {
        if let Some(active) = self.recording() {
            return Err(CmdError::AlreadyRecording(active));
        }
        let start = if register.is_uppercase() {
            match self.find(lower(register)) {
                Some(i) => copy_tokens(&self.registers[i].1),
                None => Vec::new(),
            }
        } else {
            Vec::new()
        };
        proof {
            assert(tokens_view(start@) =~= seed(self.view(), register));
        }
        self.recording = Some((register, start));
        Ok(())
    }

    /// Records one token; ignored while nothing is recorded.
    pub fn push(&mut self, token: &str)
        requires
            old(self).wf(),
        ensures
            final(self).wf(),
            final(self).view() == (MacroView {
                recording: match old(self).view().recording {
                    Some((c, buffer)) => Some((c, buffer.push(token@))),
                    None => None,
                },
                ..old(self).view()
            }),
    {
        if let Some((c, mut buffer)) = self.recording.take() {
            let ghost held = tokens_view(buffer@);
            buffer.push(token.to_owned());
            assert(tokens_view(buffer@) =~= held.push(token@));
            self.recording = Some((c, buffer));
        }
    }

    /// Drops the token just recorded, such as the one that stops recording.
    pub fn pop(&mut self)
        requires
            old(self).wf(),
        ensures
            final(self).wf(),
            final(self).view() == (MacroView {
                recording: match old(self).view().recording {
                    Some((c, buffer)) => Some(
                        (c, if buffer.len() == 0 { buffer } else { buffer.drop_last() }),
                    ),
                    None => None,
                },
                ..old(self).view()
            }),
    {
        if let Some((c, mut buffer)) = self.recording.take() {
            let ghost held = tokens_view(buffer@);
            buffer.pop();
            assert(tokens_view(buffer@) =~= if held.len() == 0 { held } else { held.drop_last() });
            self.recording = Some((c, buffer));
        }
    }

    /// Stops recording and stores the buffer. Returns the register.
    pub fn stop(&mut self) -> (r: Result<char, CmdError>)
        requires
            old(self).wf(),
        ensures
            final(self).wf(),
            final(self).view() == stopped(old(self).view()),
            match old(self).view().recording {
                Some((c, _)) => r == Ok::<char, CmdError>(c),
                None => r is Err && r->Err_0@ == CmdErrorView::NotRecording,
            },
    {
        match self.recording.take() {
            Some((c, buffer)) => {
                let copy = copy_tokens(&buffer);
                self.store(lower(c), copy);
                self.store(c, buffer);
                Ok(c)
            },
            None => Err(CmdError::NotRecording),
        }
    }

    /// The tokens to replay. A register that is empty or was never set holds
    /// no macro.
    pub fn replay(&self, register: char) -> (r: Result<&[String], CmdError>)
        requires
            self.wf(),
        ensures
            ({
                let key = lower_char(register);
                let stored = self.view().registers;
                match r {
                    Ok(tokens) => stored.contains_key(key) && tokens_view(tokens@) == stored[key]
                        && stored[key].len() > 0,
                    Err(e) => e@ == CmdErrorView::NoSuchMacro(register) && (!stored.contains_key(key)
                        || stored[key].len() == 0),
                }
            }),
    {
        match self.find(lower(register)) {
            Some(i) => {
                let tokens = self.registers[i].1.as_slice();
                if tokens.len() > 0 {
                    Ok(tokens)
                } else {
                    Err(CmdError::NoSuchMacro(register))
                }
            },
            None => Err(CmdError::NoSuchMacro(register)),
        }
    }

    /// Sets a register directly.
    pub fn set(&mut self, register: char, tokens: Vec<String>)
        requires
            old(self).wf(),
        ensures
            final(self).wf(),
            final(self).view() == (MacroView {
                registers: old(self).view().registers.insert(
                    lower_char(register),
                    tokens_view(tokens@),
                ),
                ..old(self).view()
            }),
    {
        self.store(lower(register), tokens);
    }
}

/// What is stored when recording stops is what a replay finds, under either
/// case of the register's name.
pub proof fn a_recording_is_replayed(m: MacroView, other: char)
    requires
        m.recording is Some,
        lower_char(other) == lower_char(m.recording->Some_0.0),
    ensures
        stopped(m).registers.contains_key(lower_char(other)),
        stopped(m).registers[lower_char(other)] == m.recording->Some_0.1,
        stopped(m).recording is None,
{
}

/// Recording into an upper-case register keeps what was there and appends.
pub proof fn an_uppercase_register_keeps_what_was_there(m: MacroView, register: char)
    requires
        is_upper(register),
        m.registers.contains_key(lower_char(register)),
    ensures
        seed(m, register) == m.registers[lower_char(register)],
{
}

/// Recording into any other register begins with nothing.
pub proof fn other_registers_begin_empty(m: MacroView, register: char)
    requires
        !is_upper(register) || !m.registers.contains_key(lower_char(register)),
    ensures
        seed(m, register).len() == 0,
{
}

/// Stopping leaves all other registers as they were.
pub proof fn stopping_keeps_other_registers(m: MacroView, other: char)
    requires
        m.recording is Some ==> other != m.recording->Some_0.0 && other != lower_char(
            m.recording->Some_0.0,
        ),
    ensures
        stopped(m).registers.contains_key(other) == m.registers.contains_key(other),
        m.registers.contains_key(other) ==> stopped(m).registers[other] == m.registers[other],
        m.recording is None ==> stopped(m) == m,
{
}

/// What was recorded is stored under the register that was named, too.
pub proof fn a_recording_is_stored_under_its_name(m: MacroView)
    requires
        m.recording is Some,
    ensures
        stopped(m).registers.contains_key(m.recording->Some_0.0),
        stopped(m).registers[m.recording->Some_0.0] == m.recording->Some_0.1,
{
}

} // verus!
