//! The store's error type.

use vstd::prelude::*;

use crate::strings::concat;

verus! {

#[derive(Debug)]
pub enum StoreError {
    Io(String),
    Serialize(String),
    /// A compare-and-swap guard didn't match current file content. Its text form
    /// starts with a stable `conflict:` prefix so a caller across a string boundary
    /// can tell a benign CAS miss from a real failure.
    Conflict(String),
}

/// The text form of an error: a per-variant prefix followed by the message.
pub open spec fn error_text(e: StoreError) -> Seq<char> {
    match e {
        StoreError::Io(m) => "I/O error: "@ + m@,
        StoreError::Serialize(m) => "Serialization error: "@ + m@,
        StoreError::Conflict(m) => "conflict: "@ + m@,
    }
}

impl StoreError {
    /// The error's display text.
    pub fn to_string(&self) -> (r: String)
        ensures
            r@ == error_text(*self),
    {
        match self {
            StoreError::Io(m) => concat("I/O error: ", m.as_str()),
            StoreError::Serialize(m) => concat("Serialization error: ", m.as_str()),
            StoreError::Conflict(m) => concat("conflict: ", m.as_str()),
        }
    }

    /// The message carried by any variant.
    pub fn message(&self) -> (r: &String)
        ensures
            r == match self {
                StoreError::Io(m) => m,
                StoreError::Serialize(m) => m,
                StoreError::Conflict(m) => m,
            },
    {
        match self {
            StoreError::Io(m) => m,
            StoreError::Serialize(m) => m,
            StoreError::Conflict(m) => m,
        }
    }

    /// A copy of the error.
    pub fn duplicate(&self) -> (r: StoreError)
        ensures
            r == *self,
    {
        match self {
            StoreError::Io(m) => StoreError::Io(m.clone()),
            StoreError::Serialize(m) => StoreError::Serialize(m.clone()),
            StoreError::Conflict(m) => StoreError::Conflict(m.clone()),
        }
    }

    pub fn is_conflict(&self) -> (r: bool)
        ensures
            r == (*self is Conflict),
    {
        match self {
            StoreError::Conflict(_) => true,
            _ => false,
        }
    }
}

} // verus!
