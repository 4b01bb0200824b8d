//! The on/off flag that the jiggle loop reads and the button flips.

use vstd::prelude::*;

verus! {

/// Whether jiggling is switched on.
///
/// The flag is read through a shared borrow and flipped through an exclusive
/// one, so a flip and the copy it hands back cannot be torn apart by a read.
/// Tasks that share a flag keep it behind a lock and borrow it for no longer
/// than one call.
pub struct State {
    enabled: bool,
}

impl View for State {
    type V = bool;

    closed spec fn view(&self) -> bool {
        self.enabled
    }
}

impl State {
    /// The flag with the opposite value.
    pub closed spec fn toggled(self) -> State {
        State { enabled: !self.enabled }
    }

    /// A device starts out jiggling.
    pub fn new() -> (state: Self)
        ensures
            state@,
    {
        Self { enabled: true }
    }

    /// A copy of the flag; the flag stays as it is.
    pub fn is_enabled(&self) -> (enabled: bool)
        ensures
            enabled == self@,
    {
        self.enabled
    }

    /// Flips the flag and hands back its new value.
    pub fn toggle(&mut self) -> (enabled: bool)
        ensures
            *final(self) == old(self).toggled(),
            final(self)@ == !old(self)@,
            enabled == final(self)@,
    {
        self.enabled = !self.enabled;
        self.enabled
    }
}

/// A flag is what it shows, and flipping it shows the opposite.
pub proof fn lemma_toggled_shows_opposite(state: State)
    ensures
        state.toggled()@ == !state@,
        forall|other: State| other@ == state@ ==> other == state,
{
}

/// Flipping a flag twice leaves it as it was.
pub proof fn lemma_double_toggle(state: State)
    ensures
        state.toggled().toggled() == state,
        state.toggled().toggled()@ == state@,
{
}

} // verus!
