//! A configuration-driven HTTP request runner: named requests declare their
//! method, URL, headers and body as template strings, and named placeholders
//! inside those templates are resolved from pluggable value sources
//! (environment variables, files, interactive prompts, a secret store, and
//! the memoized responses of other declared requests).
//!
//! The crate is the execution and dependency-resolution engine alone.  It
//! performs no I/O itself: the executor is a step machine that asks its host
//! for every outside value (an environment lookup, a prompt, a file, a
//! secret, an HTTP exchange) and decides everything else — template scanning
//! and substitution, dependency dispatch, response history and extraction,
//! failure propagation — in verified code.

pub mod executor;
pub mod json;
pub mod options;
pub mod resolvers;
pub mod request;
pub mod response;
pub mod table;
pub mod template;
pub mod text;
