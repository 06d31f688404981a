//! Debounced auto-save: every edit schedules a save a moment later, and
//! only the save scheduled by the latest edit is carried out — one that
//! was already waiting when a newer keystroke came in stands down. The
//! caller runs the timer and writes the file.
use vstd::prelude::*;

verus! {

/// The edit counter behind the debounce.
pub struct AutosaveClock {
    generation: u64,
}

impl View for AutosaveClock {
    type V = nat;

    closed spec fn view(&self) -> nat {
        self.generation as nat
    }
}

impl AutosaveClock {
    /// No edits yet.
    pub fn new() -> (r: AutosaveClock)
        ensures
            r@ == 0,
    {
        AutosaveClock { generation: 0 }
    }

    /// Records an edit and returns the ticket of the save it schedules.
    pub fn note_edit(&mut self) -> (ticket: u64)
        requires
            old(self)@ < u64::MAX,
        ensures
            final(self)@ == old(self)@ + 1,
            ticket == final(self)@,
    {
        self.generation = self.generation + 1;
        self.generation
    }

    /// Whether another edit can still be counted.
    pub fn can_note_edit(&self) -> (r: bool)
        ensures
            r == (self@ < u64::MAX),
    {
        self.generation < u64::MAX
    }

    /// Whether the save holding `ticket` should still go ahead: no edit
    /// came in after the one that scheduled it.
    pub fn is_current(&self, ticket: u64) -> (r: bool)
        ensures
            r == (ticket == self@),
    {
        self.generation == ticket
    }
}

} // verus!
