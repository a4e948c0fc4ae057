//! The failures a gist submission can run into, kept apart so the caller
//! can react to each: a missing credential is a configuration mistake, a
//! local read failure and a transport failure are environmental, and a
//! rejection by the remote endpoint is an API-level outcome.

use vstd::prelude::*;

verus! {

/// Everything that can go wrong between constructing a request and
/// receiving a successful response.
#[derive(Clone, Copy, Debug, PartialEq, Eq, Structural)]
pub enum Error {
    /// A credential was required (non-anonymous mode) but none was supplied.
    ConfigurationError,
    /// A named file or standard input could not be read.
    LocalIOError,
    /// The request never received an answer: DNS, TLS, connect or stream failure.
    NetworkError,
    /// The endpoint answered, but not with the expected success status.
    ApiError,
}

impl Error {
    /// A short human-readable description of the failure.
    pub fn message(&self) -> (r: &'static str)
        ensures
            self is ConfigurationError ==> r@ == "Missing GITHUB_TOKEN environment variable."@,
            self is LocalIOError ==> r@ == "Could not read input."@,
            self is NetworkError ==> r@ == "Network error."@,
            self is ApiError ==> r@ == "API error."@,
    {
        match self {
            Error::ConfigurationError => "Missing GITHUB_TOKEN environment variable.",
            Error::LocalIOError => "Could not read input.",
            Error::NetworkError => "Network error.",
            Error::ApiError => "API error.",
        }
    }
}

} // verus!
