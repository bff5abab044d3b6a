use vstd::prelude::*;

verus! {

/// The crate's general error.
#[derive(Debug, Clone, PartialEq)]
pub enum DepsError {
    /// Invalid data was provided.
    Invalid,
    /// Any other failure, carrying its description.
    Other(String),
}

impl DepsError {
    /// A description of the error, for reporting.
    pub fn message(&self) -> (r: String)
        ensures
            (match self {
                DepsError::Invalid => r@ == "invalid data provided"@,
                DepsError::Other(m) => r@ == m@,
            }),
    {
        match self {
            DepsError::Invalid => String::from_str("invalid data provided"),
            DepsError::Other(m) => m.clone(),
        }
    }
}

} // verus!
