use vstd::prelude::*;

verus! {

/// Enum with all errors in this crate.
#[derive(Debug, Clone, Copy, PartialEq, Eq, Structural)]
pub enum SuperclusterError {
    /// No cluster with the specified id.
    NoClusterFound,
}

impl SuperclusterError {
    /// The message that goes with this error.
    pub fn message(&self) -> (text: &'static str)
        ensures
            text@ == "No cluster with the specified id."@,
    {
        match self {
            SuperclusterError::NoClusterFound => "No cluster with the specified id.",
        }
    }
}

} // verus!
