//! How serious an error is.
use vstd::prelude::*;

verus! {

/// What an error asks of the editor.
#[derive(Clone, Copy, Debug, PartialEq, Eq, Structural)]
pub enum ErrorClass {
    /// The user asked for something that cannot be done.
    User,
    /// Something outside went wrong; editing goes on.
    Recoverable,
    /// The project can no longer be trusted.
    Corruption,
}

impl ErrorClass {
    /// Whether editing may go on.
    pub fn is_continuable(self) -> (b: bool)
        ensures
            b == (self != ErrorClass::Corruption),
    {
        match self {
            ErrorClass::Corruption => false,
            _ => true,
        }
    }
}

} // verus!
