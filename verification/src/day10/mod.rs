//! The factory machines: indicator lights toggled by buttons, and joltage
//! counters raised by the same buttons.
//!
//! * [`bits`] treats a `u16` as a row of sixteen lights.
//! * [`machine`] is the decoded description of one machine.
//! * [`decode`] reads machines from text.
//! * [`toggle`] finds the fewest presses that show the target pattern.
//! * [`cover`] finds the fewest presses that bring the joltage counters to
//!   their targets, with the help of [`solver`].
//! * [`batch`] adds the answers up over many machines.

pub mod batch;
pub mod bits;
pub mod cover;
pub mod decode;
pub mod machine;
pub mod solver;
pub mod toggle;
