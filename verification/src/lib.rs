//! A small client library for creating "gists": named text files bundled
//! into a JSON payload and posted to a fixed HTTPS endpoint.
//!
//! The library covers everything that can be decided locally: assembling
//! the payload (key-sorted, last-write-wins on colliding file names, exact
//! JSON string escaping), building the outgoing request (URL, headers,
//! body), and interpreting the transport outcome. Performing the actual
//! HTTP exchange, reading files and reading the environment are left to
//! the host application.

pub mod error;
pub mod json;
pub mod gist;

pub use error::Error;
pub use gist::Gist;
pub use gist::GistFile;
pub use gist::HttpOutcome;
pub use gist::HttpRequest;
