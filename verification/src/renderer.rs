//! The input events that a rendering/input layer hands to the driver
//! loop. The layers themselves live outside the verified core and drive
//! the simulation only through direction requests and discrete ticks.

use vstd::prelude::*;

use crate::entity::Direction;

verus! {

/// One user input event, as the surrounding input layer reports it. A tap
/// is a contextual gesture that the driver interprets from the phase.
#[derive(Debug, Clone, Copy, PartialEq, Eq, Structural)]
pub enum Input {
    Direction(Direction),
    Quit,
    Restart,
    NextLevel,
    Tap,
}

} // verus!
