//! Motion synthesis and on/off coordination for a USB cursor jiggler.
//!
//! The device nudges the cursor by a short run of small horizontal steps that
//! ends where it began, often enough to keep a host awake, and a button turns
//! the behaviour off and on. This crate holds the parts of that with rules
//! worth proving: how a random seed becomes a run of steps, how runs are put
//! together in one bounded buffer, and the flag that the two tasks share.

pub mod buffer;
pub mod jiggle;
