use vstd::prelude::*;

verus! {

/// Why a forest could not be built, or an index could not be looked up.
#[derive(Clone, Copy, Debug, PartialEq, Eq, Structural)]
pub enum MsfError {
    /// A vertex index lies outside `[0, vertex_count)`.
    InvalidIndex,
    /// A weight is not a finite number.
    InvalidWeight,
}

impl MsfError {
    /// A short description of the error.
    pub fn message(&self) -> (text: &'static str)
        ensures
            text@ == (match *self {
                MsfError::InvalidIndex => "vertex index out of range"@,
                MsfError::InvalidWeight => "weight is not finite"@,
            }),
    {
        match self {
            MsfError::InvalidIndex => "vertex index out of range",
            MsfError::InvalidWeight => "weight is not finite",
        }
    }
}

} // verus!
