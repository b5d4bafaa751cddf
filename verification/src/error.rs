//! Error contract shared by configuration loading and CLI composition.
//!
//! Paths and operating-system failures are carried as their display text.

use vstd::prelude::*;
use crate::text::{concat2, owned};

verus! {

/// Failures surfaced by configuration loading or CLI orchestration.
#[derive(Clone, Debug)]
pub enum ValidatorError {
    /// Command-line options form an unsupported presentation combination.
    Usage(String),
    /// No configuration was found while walking upward from the given path.
    ConfigNotFound(String),
    /// A discovered configuration could not be read from disk.
    ConfigRead {
        /// Canonical or explicitly requested configuration path.
        path: String,
        /// Filesystem error returned while reading the document.
        source: String,
    },
    /// The configuration document failed syntactic or semantic validation.
    InvalidConfig {
        /// Configuration path associated with the diagnostic.
        path: String,
        /// Complete validation diagnostic, including aggregated errors.
        detail: String,
    },
    /// An unexpected executor or presentation failure occurred.
    Internal(String),
}

/// The human-readable rendering of an error.
pub open spec fn error_message(error: ValidatorError) -> Seq<char> {
    match error {
        ValidatorError::Usage(detail) => "invalid command usage: "@ + detail@,
        ValidatorError::ConfigNotFound(path) => "configuration was not found from "@ + path@,
        ValidatorError::ConfigRead { path, source } => "cannot read configuration "@ + path@ + ": "@ + source@,
        ValidatorError::InvalidConfig { path, detail } => "invalid configuration "@ + path@ + ": "@ + detail@,
        ValidatorError::Internal(detail) => "internal executor failure: "@ + detail@,
    }
}

impl ValidatorError {
    /// Creates an invalid-configuration error from a path and a diagnostic.
    pub fn invalid(path: &str, detail: &str) -> (r: Self)
        ensures
            r matches ValidatorError::InvalidConfig { path: p, detail: d } && p@ == path@ && d@ == detail@,
    {
        ValidatorError::InvalidConfig { path: owned(path), detail: owned(detail) }
    }

    /// Renders the error for people.
    pub fn message(&self) -> (r: String)
        ensures
            r@ == error_message(*self),
    {
        match self {
            ValidatorError::Usage(detail) => concat2("invalid command usage: ", detail.as_str()),
            ValidatorError::ConfigNotFound(path) => concat2("configuration was not found from ", path.as_str()),
            ValidatorError::ConfigRead { path, source } => {
                let mut r = concat2("cannot read configuration ", path.as_str());
                r.append(": ");
                r.append(source.as_str());
                r
            },
            ValidatorError::InvalidConfig { path, detail } => {
                let mut r = concat2("invalid configuration ", path.as_str());
                r.append(": ");
                r.append(detail.as_str());
                r
            },
            ValidatorError::Internal(detail) => concat2("internal executor failure: ", detail.as_str()),
        }
    }
}

} // verus!
