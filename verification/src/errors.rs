//! The error taxonomy of the service and its mapping to HTTP responses.

use vstd::prelude::*;

verus! {

/// Every way a request can fail, and how the client sees it.
#[derive(Clone, Copy, Debug, PartialEq, Eq, Structural)]
pub enum ResolveError {
    /// The client's token bucket is empty.
    RateLimited,
    /// Network, TLS or timeout failure on either upstream call.
    UpstreamTransport,
    /// An upstream body was not JSON of the expected shape.
    UpstreamSchema,
    /// The upstream returned an empty feature list.
    NoAirportFound,
    /// A programming error; should not occur.
    Internal,
}

impl ResolveError {
    /// The HTTP status code for this error.
    pub open spec fn spec_status(self) -> u16 {
        match self {
            ResolveError::RateLimited => 429,
            ResolveError::UpstreamTransport => 502,
            ResolveError::UpstreamSchema => 502,
            ResolveError::NoAirportFound => 502,
            ResolveError::Internal => 500,
        }
    }

    /// The response body for this error. Upstream bodies are never forwarded.
    pub open spec fn spec_body(self) -> Seq<char> {
        match self {
            ResolveError::RateLimited => ""@,
            ResolveError::UpstreamTransport => "upstream unavailable"@,
            ResolveError::UpstreamSchema => "upstream schema"@,
            ResolveError::NoAirportFound => "no airport found"@,
            ResolveError::Internal => "internal"@,
        }
    }

    pub fn status(&self) -> (r: u16)
        ensures
            r == self.spec_status(),
    {
        match self {
            ResolveError::RateLimited => 429,
            ResolveError::UpstreamTransport => 502,
            ResolveError::UpstreamSchema => 502,
            ResolveError::NoAirportFound => 502,
            ResolveError::Internal => 500,
        }
    }

    pub fn body(&self) -> (r: String)
        ensures
            r@ == self.spec_body(),
    {
        match self {
            ResolveError::RateLimited => String::from_str(""),
            ResolveError::UpstreamTransport => String::from_str("upstream unavailable"),
            ResolveError::UpstreamSchema => String::from_str("upstream schema"),
            ResolveError::NoAirportFound => String::from_str("no airport found"),
            ResolveError::Internal => String::from_str("internal"),
        }
    }
}

} // verus!
