//! Error types of the library.

use vstd::prelude::*;

verus! {

/// Errors surfaced by the store client core.
#[derive(Debug, Clone)]
pub enum ConfigError {
    /// A single-key read resolved to zero entries; carries the missing key.
    KeyDoesNotExist(String),
    /// A write referred to a lease id the store does not hold (expired or
    /// revoked); carries the offending lease id.
    LeaseNotFound(i64),
}

/// Errors of the configuration-file loaders.
#[derive(Debug, Clone)]
pub enum ConfigLoadErrors {
    /// A line could not be split into a key and a value; carries the line.
    KeySplitError(String),
    /// A value could not be cast to the requested type; carries the path and
    /// the name of the requested type.
    ValueCastError(String, String),
    /// The hierarchical configuration file could not be loaded; carries the
    /// loader's message.
    HoconLoadError(String),
}

} // verus!
