//! The errors of the storage engine.
use vstd::prelude::*;

verus! {

/// Which half of a key-value pair an error is about.
#[derive(Debug, Clone, Copy, PartialEq, Eq, Structural)]
pub enum PairComponent {
    Key,
    Value,
}

impl PairComponent {
    /// The component's name, as it reads in messages.
    pub fn name(&self) -> (r: &'static str)
        ensures
            *self is Key ==> r@ == "key"@,
            *self is Value ==> r@ == "value"@,
    {
        match self {
            PairComponent::Key => "key",
            PairComponent::Value => "value",
        }
    }
}

#[derive(Debug, PartialEq, Eq)]
pub enum Error {
    /// A filesystem or other I/O operation failed; the text describes it.
    Io(String),
    /// A lock became unusable because a holder panicked.
    Poison,
    /// A key or value is longer than a length prefix can state: the component,
    /// its length, and the largest length allowed.
    TooLarge(PairComponent, usize, usize),
    /// A segment or log holds an unknown indicator, a truncated entry, text
    /// that is not UTF-8, or keys out of order; the byte offset of the entry.
    Malformed(usize),
    /// The background compactor ended abnormally.
    JoinFailed,
}

} // verus!
