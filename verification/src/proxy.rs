//! The HTTP proxy: request model, parsing, rewriting for the backend, and errors.
pub mod error;
pub mod http;
pub mod laws;
