//! A small service core: resolve the nearest large commercial airport for a
//! client IP address.
//!
//! The library holds the verified logic: a per-client token-bucket rate
//! limiter, a time-bounded result cache with single-flight semantics, the
//! upstream URL construction and response parsing, and the error-to-response
//! mapping. Network I/O and the HTTP server itself live outside the library.

pub mod cache;
pub mod errors;
pub mod ingress;
pub mod limiter;
pub mod resolver;
pub mod upstream;
