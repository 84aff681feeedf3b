//! The life of the terminal resource: unopened, open with the prior settings
//! captured, and closed with those settings handed back for restoration,
//! exactly once.

use vstd::prelude::*;

verus! {

/// The state of the terminal resource, as mathematical values.
pub enum TerminalModel {
    /// Raw mode was not entered yet.
    Unopened,
    /// Raw mode is on; `saved` holds the prior settings, byte for byte.
    Open { saved: Seq<u8> },
    /// The prior settings were handed back for restoration.
    Closed,
}

/// The phases of the terminal resource.
enum Phase {
    Unopened,
    Open(Vec<u8>),
    Closed,
}

/// The terminal resource: it keeps the settings that the terminal had before
/// raw mode was entered, and hands them back once.
pub struct TerminalState {
    phase: Phase,
}

impl View for TerminalState {
    type V = TerminalModel;

    closed spec fn view(&self) -> TerminalModel {
        match self.phase {
            Phase::Unopened => TerminalModel::Unopened,
            Phase::Open(saved) => TerminalModel::Open { saved: saved@ },
            Phase::Closed => TerminalModel::Closed,
        }
    }
}

impl TerminalState {
    /// A terminal that was not opened yet.
    pub fn new() -> (state: TerminalState)
        ensures
            state@ == TerminalModel::Unopened,
    {
        TerminalState { phase: Phase::Unopened }
    }

    /// Raw mode is entered: captures the prior settings. This succeeds on a
    /// terminal that was not opened yet and on no other; a terminal is
    /// opened once.
    pub fn open(&mut self, prior: Vec<u8>) -> (accepted: bool)
        ensures
            accepted == (old(self)@ == TerminalModel::Unopened),
            accepted ==> final(self)@ == (TerminalModel::Open { saved: prior@ }),
            !accepted ==> final(self)@ == old(self)@,
    {
        match self.phase {
            Phase::Unopened => {
                self.phase = Phase::Open(prior);
                true
            },
            _ => false,
        }
    }

    /// Whether raw mode is on.
    pub fn is_open(&self) -> (r: bool)
        ensures
            r == (self@ is Open),
    {
        match self.phase {
            Phase::Open(_) => true,
            _ => false,
        }
    }

    /// The terminal is released: hands back the captured settings, which the
    /// caller restores. Only an open terminal has settings to hand back, so
    /// that they are restored once and never twice.
    pub fn close(&mut self) -> (restore: Option<Vec<u8>>)
        ensures
            match restore {
                Some(bytes) => closed(old(self)@).0 == Some(bytes@),
                None => closed(old(self)@).0 is None,
            },
            final(self)@ == closed(old(self)@).1,
    {
        let mut phase = Phase::Closed;
        std::mem::swap(&mut self.phase, &mut phase);
        match phase {
            Phase::Open(saved) => Some(saved),
            other => {
                self.phase = other;
                None
            },
        }
    }
}

/// What closing does to a terminal: the settings to restore, if any, and the
/// state after it.
pub open spec fn closed(state: TerminalModel) -> (Option<Seq<u8>>, TerminalModel) {
    match state {
        TerminalModel::Open { saved } => (Some(saved), TerminalModel::Closed),
        _ => (None, state),
    }
}

/// The settings are restored exactly once: closing an open terminal hands
/// back the settings captured when it was opened, and closing it again hands
/// back nothing.
pub proof fn lemma_restored_exactly_once(state: TerminalModel, saved: Seq<u8>)
    requires
        state == (TerminalModel::Open { saved }),
    ensures
        closed(state).0 == Some(saved),
        closed(closed(state).1).0 is None,
        closed(closed(state).1).1 == TerminalModel::Closed,
{
}

} // verus!
