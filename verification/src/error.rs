//! The error taxonomy shared by the store, the service layer and the command
//! layer: a referenced id that is absent, invalid caller-supplied content, a
//! reserved conflict kind, and internal failures (codec, schema, I/O).

use vstd::prelude::*;
use vstd::string::StringExecFns;

verus! {

/// The kinds of failure an operation can report.
#[derive(Debug, Clone, PartialEq, Eq)]
pub enum AppError {
    /// A referenced id is absent from its collection.
    NotFound(String),
    /// Caller-supplied content violates a precondition.
    Validation(String),
    /// Reserved for future use; never raised by the store itself.
    Conflict(String),
    /// An I/O failure, schema mismatch or malformed persisted field.
    Internal(String),
}

pub type AppResult<T> = Result<T, AppError>;

impl AppError {
    /// The human-readable description of this error, with its kind prefix.
    pub open spec fn message_spec(&self) -> Seq<char> {
        match self {
            AppError::NotFound(m) => "not found: "@ + m@,
            AppError::Validation(m) => "validation failed: "@ + m@,
            AppError::Conflict(m) => "conflict: "@ + m@,
            AppError::Internal(m) => "internal error: "@ + m@,
        }
    }

    /// Renders the error as one line of text, prefixed with its kind.
    pub fn message(&self) -> (r: String)
        ensures
            r@ == self.message_spec(),
    {
        match self {
            AppError::NotFound(m) => {
                let mut s = String::from_str("not found: ");
                s.append(m.as_str());
                s
            },
            AppError::Validation(m) => {
                let mut s = String::from_str("validation failed: ");
                s.append(m.as_str());
                s
            },
            AppError::Conflict(m) => {
                let mut s = String::from_str("conflict: ");
                s.append(m.as_str());
                s
            },
            AppError::Internal(m) => {
                let mut s = String::from_str("internal error: ");
                s.append(m.as_str());
                s
            },
        }
    }
}

} // verus!
