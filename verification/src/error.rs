//! The closed set of fatal error conditions a run can end with.

use vstd::prelude::*;

verus! {

/// A failure surfaced to the user: the input file could not be read, or the
/// result could not be written back. `guidance` carries the text of the
/// underlying filesystem error.
pub enum UserError {
    CannotWriteMakefile { guidance: String },
    NoMakefile { guidance: String },
}

impl UserError {
    /// The guidance text this error should be rendered with.
    pub fn message(&self) -> (r: String)
        ensures
            r@ == match self {
                UserError::CannotWriteMakefile { guidance } => guidance@,
                UserError::NoMakefile { guidance } => guidance@,
            },
    {
        match self {
            UserError::CannotWriteMakefile { guidance } => guidance.clone(),
            UserError::NoMakefile { guidance } => guidance.clone(),
        }
    }
}

} // verus!
