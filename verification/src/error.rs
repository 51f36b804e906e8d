//! The ways in which following a path can fail.

use vstd::prelude::*;

verus! {

/// Why a path could not be followed through a document.
#[derive(Debug, PartialEq, Eq)]
pub enum FilterError {
    /// The object has no field of this name.
    KeyNotFound(String),
    /// The step met an array, and its text is not an index.
    InvalidIndex(String),
    /// The index, and the length of the array that it lies beyond.
    IndexOutOfBounds(usize, usize),
    /// A key step met a value that has no parts.
    CannotDescendIntoScalar(String),
    /// A wildcard step met a value that is not an array.
    WildcardOnNonArray,
}

/// What a [`FilterError`] stands for.
pub enum Failure {
    KeyNotFound(Seq<char>),
    InvalidIndex(Seq<char>),
    IndexOutOfBounds(nat, nat),
    CannotDescendIntoScalar(Seq<char>),
    WildcardOnNonArray,
}

impl View for FilterError {
    type V = Failure;

    open spec fn view(&self) -> Failure {
        match self {
            FilterError::KeyNotFound(key) => Failure::KeyNotFound(key@),
            FilterError::InvalidIndex(text) => Failure::InvalidIndex(text@),
            FilterError::IndexOutOfBounds(index, len) => Failure::IndexOutOfBounds(
                *index as nat,
                *len as nat,
            ),
            FilterError::CannotDescendIntoScalar(key) => Failure::CannotDescendIntoScalar(key@),
            FilterError::WildcardOnNonArray => Failure::WildcardOnNonArray,
        }
    }
}

} // verus!
