//! The description of one machine, and the ways in which working on it can fail.

use vstd::prelude::*;

verus! {

/// Why a machine could not be decoded or solved.
#[derive(Debug, Clone, Copy, PartialEq, Eq, Structural)]
pub enum MachineError {
    /// A token of a record is not a light pattern, a bracketed group or a list of integers.
    /// `line` and `token` count from zero.
    MalformedRecord { line: usize, token: usize },
    /// A button names a light, or the joltage list a counter, beyond the width of the pattern.
    IndexOutOfRange { line: usize, token: usize },
    /// No sequence of presses turns the dark machine into its target pattern.
    UnreachableTarget,
    /// No press counts bring every joltage counter to its target.
    InfeasibleCover,
    /// The solver gave up before it had an answer.
    SolverTimeout,
    /// The machine has more buttons than the solver takes, or the solver's answer is
    /// missing, out of range, or fails the constraints that it was given.
    SolverFault,
}

/// One machine: the light pattern to reach, the lights that each button toggles, and the
/// joltage that each counter must show.
#[derive(Debug, Clone)]
pub struct Machine {
    target: u16,
    buttons: Vec<u16>,
    joltage: Vec<usize>,
}

/// What a [`Machine`] holds, as mathematical values.
pub struct MachineView {
    pub target: u16,
    pub buttons: Seq<u16>,
    pub joltage: Seq<usize>,
}

impl View for Machine {
    type V = MachineView;

    closed spec fn view(&self) -> MachineView {
        MachineView { target: self.target, buttons: self.buttons@, joltage: self.joltage@ }
    }
}

impl Machine {
    /// A machine with the given target pattern, buttons and joltage targets.
    pub fn new(target: u16, buttons: Vec<u16>, joltage: Vec<usize>) -> (m: Machine)
        ensures
            m@ == (MachineView { target, buttons: buttons@, joltage: joltage@ }),
    {
        Machine { target, buttons, joltage }
    }

    /// The light pattern that the machine must show.
    pub fn target(&self) -> (t: u16)
        ensures
            t == self@.target,
    {
        self.target
    }

    /// The buttons, each as the pattern of lights that it toggles.
    pub fn buttons(&self) -> (b: &Vec<u16>)
        ensures
            b@ == self@.buttons,
    {
        &self.buttons
    }

    /// The joltage that each counter must show, by position.
    pub fn joltage(&self) -> (j: &Vec<usize>)
        ensures
            j@ == self@.joltage,
    {
        &self.joltage
    }
}

} // verus!
