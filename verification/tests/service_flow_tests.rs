//! The whole request flow, driven with stubbed upstream bodies: what the
//! embedding server does around the library, minus the actual sockets.

use nearest_airport::cache::{FlightCache, GetAction};
use nearest_airport::errors::ResolveError;
use nearest_airport::ingress::response_for;
use nearest_airport::limiter::RateLimiter;
use nearest_airport::resolver::{airport_from_body, airport_url_from_geo, geolocate_url_for, ResolvedAirport};

const GEO_BODY: &str = r#"{"latitude": 52.5, "longitude": 13.4}"#;
const AIRPORT_BODY: &str = r#"{"features": [
    {"properties": {"iata": "BER", "name": "Berlin Brandenburg", "distance": 12000}}
]}"#;

/// One request as the server runs it: rate limit, cache, then the two-step
/// resolve against stub bodies. Counts loader runs.
fn handle(
    limiter: &mut RateLimiter,
    cache: &mut FlightCache,
    ip: &str,
    now_ms: u64,
    geo_body: &str,
    airport_body: &str,
    loader_runs: &mut u32,
) -> (u16, String) {
    let ip = String::from(ip);
    if !limiter.check(&ip, now_ms) {
        return response_for(&Err(ResolveError::RateLimited));
    }
    loop {
        match cache.on_get(&ip, now_ms) {
            GetAction::Hit(v) => {
                return response_for(&Ok(v));
            },
            GetAction::Wait => {
                // In the server this caller would await the leader; the
                // sequential test simply asks again.
                continue;
            },
            GetAction::Lead => {
                *loader_runs += 1;
                let _geo_url = geolocate_url_for(&ip);
                // The stub stands in for the GET of _geo_url.
                let result: Result<ResolvedAirport, ResolveError> = match airport_url_from_geo(
                    geo_body,
                ) {
                    Err(e) => Err(e),
                    Ok(_airport_url) => {
                        // The stub stands in for the GET of _airport_url.
                        airport_from_body(airport_body)
                    },
                };
                match result {
                    Ok(v) => {
                        cache.store(&ip, v.clone(), now_ms);
                        return response_for(&Ok(v));
                    },
                    Err(e) => {
                        cache.clear(&ip);
                        return response_for(&Err(e));
                    },
                }
            },
        }
    }
}

#[test]
fn successful_lookup_renders_the_airport() {
    let mut limiter = RateLimiter::new();
    let mut cache = FlightCache::new();
    let mut runs = 0;
    let (status, body) =
        handle(&mut limiter, &mut cache, "203.0.113.7", 0, GEO_BODY, AIRPORT_BODY, &mut runs);
    assert_eq!(status, 200);
    assert_eq!(body, "Berlin Brandenburg: BER");
    assert_eq!(runs, 1);
}

#[test]
fn repeat_request_is_served_from_the_cache() {
    let mut limiter = RateLimiter::new();
    let mut cache = FlightCache::new();
    let mut runs = 0;
    let first =
        handle(&mut limiter, &mut cache, "203.0.113.7", 0, GEO_BODY, AIRPORT_BODY, &mut runs);
    let second =
        handle(&mut limiter, &mut cache, "203.0.113.7", 5, GEO_BODY, AIRPORT_BODY, &mut runs);
    assert_eq!(first, second);
    assert_eq!(runs, 1, "the upstream must be asked exactly once");
}

#[test]
fn rapid_fire_gets_at_least_twenty_and_the_rest_rejected() {
    let mut limiter = RateLimiter::new();
    let mut cache = FlightCache::new();
    let mut runs = 0;
    let mut ok = 0;
    let mut limited = 0;
    for k in 0..25u64 {
        let (status, _) = handle(
            &mut limiter,
            &mut cache,
            "203.0.113.7",
            k * 8,
            GEO_BODY,
            AIRPORT_BODY,
            &mut runs,
        );
        if status == 200 {
            ok += 1;
        } else {
            assert_eq!(status, 429);
            limited += 1;
        }
    }
    assert_eq!(ok, 20);
    assert_eq!(limited, 5);
}

#[test]
fn empty_feature_list_fails_and_is_retried() {
    let mut limiter = RateLimiter::new();
    let mut cache = FlightCache::new();
    let mut runs = 0;
    let empty = r#"{"features": []}"#;
    let (status, body) =
        handle(&mut limiter, &mut cache, "192.0.2.1", 0, GEO_BODY, empty, &mut runs);
    assert_eq!(status, 502);
    assert_eq!(body, "no airport found");
    // The failure was not cached: the same request asks the upstream again.
    let (status2, _) = handle(&mut limiter, &mut cache, "192.0.2.1", 1, GEO_BODY, empty, &mut runs);
    assert_eq!(status2, 502);
    assert_eq!(runs, 2, "a failure must not be cached");
}

#[test]
fn malformed_geolocation_fails_with_schema_body() {
    let mut limiter = RateLimiter::new();
    let mut cache = FlightCache::new();
    let mut runs = 0;
    let bad = r#"{"latitude": "NaN-string"}"#;
    let (status, body) =
        handle(&mut limiter, &mut cache, "192.0.2.2", 0, bad, AIRPORT_BODY, &mut runs);
    assert_eq!(status, 502);
    assert_eq!(body, "upstream schema");
}
