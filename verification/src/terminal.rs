//! Actions for a terminal.
use vstd::prelude::*;

verus! {

/// An action for the terminal.
#[derive(Clone, Debug, PartialEq)]
pub enum Term {
    Beep,
    Backspace,
    Chars(String),
}

} // verus!
