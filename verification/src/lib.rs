//! Routing core of a reverse proxy: a table of path prefixes, each with a
//! group of backends served in rotation, and the decisions taken for one
//! request.
//!
//! The functions carry contracts that Verus proves. Two small wrappers
//! are the exception, one around `String::push` and one around the URI
//! parser of `hyper`: their contracts are stated and relied upon.

pub mod config;
pub mod proxy;
pub mod text;
