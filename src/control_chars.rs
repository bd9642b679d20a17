//! The warning characters, configurable per machine.
use vstd::prelude::*;

verus! {

/// One cell of the store: characters, lengths, links and tags alike.
pub type Cell = i32;

/// The six warning characters that the machine acts upon.
#[derive(Clone, Copy)]
pub struct ControlChars {
    /// Begins quoted text.
    pub open: Cell,
    /// Ends quoted text.
    pub close: Cell,
    /// Introduces a macro call.
    pub def: Cell,
    /// Separates the items of a call.
    pub arg_sep: Cell,
    /// Applies the call under construction.
    pub apply: Cell,
    /// Refers to an argument of the current call.
    pub load_arg: Cell,
}

impl ControlChars {
    /// The classic set: `<`, `>`, section sign, `,`, `;`, `~`.
    pub fn default() -> (r: Self)
        ensures
            r.open == '<' as Cell,
            r.close == '>' as Cell,
            r.def == '\u{a7}' as Cell,
            r.arg_sep == ',' as Cell,
            r.apply == ';' as Cell,
            r.load_arg == '~' as Cell,
    {
        ControlChars {
            open: '<' as Cell,
            close: '>' as Cell,
            def: '\u{a7}' as Cell,
            arg_sep: ',' as Cell,
            apply: ';' as Cell,
            load_arg: '~' as Cell,
        }
    }
}

} // verus!
