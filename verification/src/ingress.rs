//! The ingress mapping: from a resolution outcome to the HTTP status and
//! body the client sees, and the service constants the listener and the
//! eviction task use.

use vstd::prelude::*;
use crate::errors::ResolveError;
use crate::resolver::ResolvedAirport;

verus! {

/// The listening port.
pub const LISTEN_PORT: u16 = 80;

/// The period of the limiter eviction sweep, in milliseconds.
pub const EVICTION_PERIOD_MS: u64 = 60000;

/// The success body: the airport name, a colon, a single space, the IATA
/// code — and nothing else.
pub open spec fn spec_render(name: Seq<char>, iata: Seq<char>) -> Seq<char> {
    name + ": "@ + iata
}

pub fn render_response(a: &ResolvedAirport) -> (r: String)
    ensures
        r@ == spec_render(a.name@, a.iata@),
{
    let mut s: String = a.name.clone();
    s.append(": ");
    s.append(a.iata.as_str());
    s
}

/// The HTTP response for one resolution outcome: `200` with the rendered
/// body on success, the error's status and fixed body otherwise.
pub fn response_for(result: &Result<ResolvedAirport, ResolveError>) -> (r: (u16, String))
    ensures
        match result {
            Ok(a) => r.0 == 200 && r.1@ == spec_render(a.name@, a.iata@),
            Err(e) => r.0 == e.spec_status() && r.1@ == e.spec_body(),
        },
{
    match result {
        Ok(a) => (200, render_response(a)),
        Err(e) => (e.status(), e.body()),
    }
}

} // verus!
