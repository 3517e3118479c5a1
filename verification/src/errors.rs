use vstd::prelude::*;

verus! {

/// A data-integrity fault found while building the analysis inputs.
///
/// Any of these aborts the whole run before any series is produced:
/// aggregation over partially accepted data would silently change cohort
/// membership.
#[derive(Clone, Copy, PartialEq, Eq, Structural, Debug)]
pub enum AggError {
    /// A version string does not parse as three dot-separated
    /// non-negative integers.
    MalformedVersion,
    /// A sample's version lies outside the configured analysis window.
    OutOfRangeVersion,
}

impl AggError {
    /// A short description of the fault, for reporting at the program's edge.
    pub fn message(&self) -> (r: &'static str)
        ensures
            *self == AggError::MalformedVersion ==> r@ == "malformed version string"@,
            *self == AggError::OutOfRangeVersion ==> r@ == "version outside the analysis window"@,
    {
        match self {
            AggError::MalformedVersion => "malformed version string",
            AggError::OutOfRangeVersion => "version outside the analysis window",
        }
    }
}

} // verus!
