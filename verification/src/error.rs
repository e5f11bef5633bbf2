//! The failures that the library reports.

use vstd::prelude::*;

verus! {

/// Why a claim, a completion or a seeding did not go through.
///
/// A failed operation leaves the store exactly as it was.
#[derive(Clone, Copy, Debug, PartialEq, Eq, Structural)]
pub enum StoreError {
    /// A claim found no incomplete task. The caller may try again later.
    NoTaskAvailable,
    /// A completion named a task that does not exist or already has its
    /// results. Trying again with the same input cannot succeed.
    AlreadyCompletedOrUnknown,
    /// The store could not serve the request. Nothing is retried here; that is
    /// the caller's decision.
    StoreUnavailable,
}

/// Why the configuration could not be used.
#[derive(Clone, Copy, Debug, PartialEq, Eq, Structural)]
pub enum ConfigError {
    /// The store's certificate is not valid base64.
    InvalidCertificate,
}

impl StoreError {
    /// The text shown to a worker for this failure.
    pub open spec fn message_text(self) -> Seq<char> {
        match self {
            StoreError::NoTaskAvailable => "No incomplete task is available!"@,
            StoreError::AlreadyCompletedOrUnknown => "Task does not exist or was already submitted!"@,
            StoreError::StoreUnavailable => "The task store is unavailable!"@,
        }
    }

    /// A human-readable message for this failure.
    pub fn message(&self) -> (text: String)
        ensures
            text@ == self.message_text(),
    {
        match self {
            StoreError::NoTaskAvailable => "No incomplete task is available!".to_owned(),
            StoreError::AlreadyCompletedOrUnknown => {
                "Task does not exist or was already submitted!".to_owned()
            },
            StoreError::StoreUnavailable => "The task store is unavailable!".to_owned(),
        }
    }
}

} // verus!
