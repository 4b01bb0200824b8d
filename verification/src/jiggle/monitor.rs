//! What a press of the button does: flip the flag and show the result.

use vstd::prelude::*;

use crate::jiggle::state::State;

verus! {

/// The two looks of the indicator light.
#[derive(Clone, Copy, Debug, PartialEq, Eq, Structural)]
pub enum Indicator {
    /// Jiggling is on.
    Lit,
    /// Jiggling is off.
    Dark,
}

impl Indicator {
    /// What the light shows for a value of the flag.
    pub open spec fn showing(enabled: bool) -> Indicator {
        if enabled {
            Indicator::Lit
        } else {
            Indicator::Dark
        }
    }

    /// The light for a value of the flag: lit when jiggling is on, dark when
    /// it is off.
    pub fn of(enabled: bool) -> (indicator: Indicator)
        ensures
            indicator == Indicator::showing(enabled),
    {
        if enabled {
            Indicator::Lit
        } else {
            Indicator::Dark
        }
    }
}

/// One press of the button: the flag is flipped, and the light to show is
/// the one for the value that the flip handed back.
pub fn on_press(state: &mut State) -> (indicator: Indicator)
    ensures
        *final(state) == old(state).toggled(),
        final(state)@ == !old(state)@,
        indicator == Indicator::showing(final(state)@),
{
    let enabled: bool = state.toggle();
    Indicator::of(enabled)
}

} // verus!
