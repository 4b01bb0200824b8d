//! The jiggle itself: step synthesis, the shared on/off flag, and the
//! decisions of the two loops that run around them.

pub mod cycle;
pub mod monitor;
pub mod movement;
pub mod state;
