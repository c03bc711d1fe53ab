//! The ways an engine or protocol operation can fail.

use vstd::prelude::*;

verus! {

/// Why an operation failed.
#[derive(Debug, Clone, PartialEq, Eq)]
pub enum KvsError {
    /// The storage or the network underneath failed; the text says how.
    IoFailure(String),
    /// A length prefix or a tag that cannot be decoded.
    Corruption,
    /// The key to remove is not present.
    KeyNotFound,
    /// The index refers to a segment or a record that is not there.
    InvariantViolation,
}

impl KvsError {
    /// The text shown to a user or sent to a client for this error.
    pub open spec fn message_spec(self) -> Seq<char> {
        match self {
            KvsError::IoFailure(text) => text@,
            KvsError::Corruption => "Corrupted data"@,
            KvsError::KeyNotFound => "Key not found"@,
            KvsError::InvariantViolation => "Index out of step with the log"@,
        }
    }

    /// The text shown to a user or sent to a client for this error.
    pub fn message(&self) -> (text: String)
        ensures
            text@ == self.message_spec(),
    {
        match self {
            KvsError::IoFailure(text) => text.clone(),
            KvsError::Corruption => "Corrupted data".to_owned(),
            KvsError::KeyNotFound => "Key not found".to_owned(),
            KvsError::InvariantViolation => "Index out of step with the log".to_owned(),
        }
    }
}

} // verus!
