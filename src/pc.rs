//! The labels of the machine's transition system.
use vstd::prelude::*;

verus! {

/// The labels of the machine's transition system: each step runs the action
/// of one label and names the next.
#[derive(Clone, Copy, Debug, PartialEq, Eq, Structural)]
pub enum Pc {
    /// Reads a character and dispatches on it.
    Start,
    /// Loads the character just read.
    Copy,
    /// Back to Start, or on copying quoted text.
    Scan,
    /// Reads a character inside quotes, tracking the depth.
    Q2,
    /// Opens a call frame.
    Fn,
    /// Closes one item of a call and opens the next.
    NextItem,
    /// Enters the call under construction.
    Apply,
    /// Copies an argument of the current call.
    LoadArg,
    /// Leaves the current call.
    EndFn,
    /// A close quote where the run may end.
    Exit,
    /// Machine macro: defines a macro.
    DEF,
    /// Machine macro: the body of a macro.
    VAL,
    /// Machine macro: overwrites the body of a macro.
    UPDATE,
    /// Machine macro: decimal text to a number.
    BIN,
    /// Machine macro: a number to decimal text.
    DEC,
    /// Machine macro: arithmetic on two numbers.
    BAR,
    /// A diagnostic, by number.
    Monitor(u8),
    /// The run has ended at the top level.
    Finish,
    /// The pending input is used up.
    NoInput,
}

} // verus!
