//! Strachey's General Purpose Macrogenerator as a resumable abstract machine.
mod actions;
mod control_chars;
mod macros;
mod monitor;
mod pc;
mod text;
mod vm;

pub use control_chars::{Cell, ControlChars};
pub use pc::Pc;
pub use vm::GpmVm;
