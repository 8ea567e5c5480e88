use vstd::prelude::*;

verus! {

/// The four ways a decode can fail; each aborts the whole enclosing decode.
#[derive(Clone, Copy, Debug, PartialEq, Eq, Structural)]
pub enum Error {
    /// A key breaks the bracket grammar: no closing bracket, or trailing
    /// content after a closing bracket that is not a fresh opener.
    InvalidMapKey,
    /// A value was requested with none pending: the caller asked for a value
    /// before (or twice after) resolving a key.
    InvalidMapValue,
    /// Nesting exceeded the configured depth ceiling.
    MaximumDepthReached,
    /// An enum discriminant was required but no pair remained.
    EofReached,
}

impl Error {
    /// A short human-readable description of the error.
    pub fn describe(&self) -> (r: &'static str)
        ensures
            r@ == self.describe_spec(),
    {
        match self {
            Error::InvalidMapKey => "invalid map key",
            Error::InvalidMapValue => "invalid map value",
            Error::MaximumDepthReached => "maximum depth reached",
            Error::EofReached => "end of input reached",
        }
    }

    pub open spec fn describe_spec(&self) -> Seq<char> {
        match self {
            Error::InvalidMapKey => "invalid map key"@,
            Error::InvalidMapValue => "invalid map value"@,
            Error::MaximumDepthReached => "maximum depth reached"@,
            Error::EofReached => "end of input reached"@,
        }
    }
}

} // verus!
