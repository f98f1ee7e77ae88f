//! Errors of dictionary construction.
use vstd::prelude::*;
use vstd::string::StringExecFns;

verus! {

/// Why a dictionary could not be built.
#[derive(Debug, Copy, Clone, PartialEq, Eq, Structural)]
pub enum BuildError {
    /// No pattern was supplied.
    EmptyPatternSet,
    /// Two patterns fold to the same lowercase key.
    DuplicatePattern,
    /// There are more patterns than ordinals.
    IndexOverflow,
    /// The matching structure refused the patterns (an empty pattern, or
    /// more states than it can address).
    Rejected,
}

/// An error carrying a message.
#[derive(Debug, Clone)]
pub struct UltraNLPError {
    message: String,
}

impl UltraNLPError {
    pub closed spec fn spec_message(&self) -> Seq<char> {
        self.message@
    }

    pub fn new(message: &str) -> (r: Self)
        ensures
            r.spec_message() == message@,
    {
        UltraNLPError { message: String::from_str(message) }
    }

    /// The message, as `Display` would show it.
    pub fn to_string(&self) -> (r: String)
        ensures
            r@ == self.spec_message(),
    {
        self.message.clone()
    }
}

impl BuildError {
    /// The error as a message.
    pub fn to_error(&self) -> (r: UltraNLPError)
        ensures
            r.spec_message() == (match self {
                BuildError::EmptyPatternSet => "The patterns cannot be empty"@,
                BuildError::DuplicatePattern => "The patterns are not unique"@,
                BuildError::IndexOverflow => "Too many patterns"@,
                BuildError::Rejected => "The patterns cannot be built into a dictionary"@,
            }),
    {
        match self {
            BuildError::EmptyPatternSet => UltraNLPError::new("The patterns cannot be empty"),
            BuildError::DuplicatePattern => UltraNLPError::new("The patterns are not unique"),
            BuildError::IndexOverflow => UltraNLPError::new("Too many patterns"),
            BuildError::Rejected => UltraNLPError::new("The patterns cannot be built into a dictionary"),
        }
    }
}

} // verus!
