use nearest_airport::cache::{FlightCache, GetAction, CACHE_TTL_MS};
use nearest_airport::resolver::ResolvedAirport;

fn airport(name: &str, iata: &str) -> ResolvedAirport {
    ResolvedAirport { name: String::from(name), iata: String::from(iata) }
}

#[test]
fn miss_then_lead_then_hit() {
    let mut cache = FlightCache::new();
    let key = String::from("203.0.113.7");
    match cache.on_get(&key, 1000) {
        GetAction::Lead => {},
        _ => panic!("first access must lead"),
    }
    cache.store(&key, airport("Berlin Brandenburg", "BER"), 1000);
    match cache.on_get(&key, 1001) {
        GetAction::Hit(v) => {
            assert_eq!(v.name, "Berlin Brandenburg");
            assert_eq!(v.iata, "BER");
        },
        _ => panic!("stored value must hit"),
    }
}

#[test]
fn value_visible_until_lifespan_then_reloaded() {
    // A value stored at t is served for the whole window [t, t + TTL) and
    // reloaded at t + TTL.
    let mut cache = FlightCache::new();
    let key = String::from("203.0.113.7");
    let t = 5000u64;
    cache.store(&key, airport("Haneda", "HND"), t);
    match cache.on_get(&key, t) {
        GetAction::Hit(v) => assert_eq!(v.iata, "HND"),
        _ => panic!("fresh value must hit at insertion time"),
    }
    match cache.on_get(&key, t + CACHE_TTL_MS - 1) {
        GetAction::Hit(v) => assert_eq!(v.iata, "HND"),
        _ => panic!("value must still hit just before expiry"),
    }
    match cache.on_get(&key, t + CACHE_TTL_MS) {
        GetAction::Lead => {},
        _ => panic!("expired value must be reloaded"),
    }
}

#[test]
fn concurrent_callers_share_one_load() {
    // Two requests for a fresh key: the first leads, the second waits, and
    // once the leader stores, both see the same value.
    let mut cache = FlightCache::new();
    let key = String::from("198.51.100.9");
    match cache.on_get(&key, 0) {
        GetAction::Lead => {},
        _ => panic!("first caller must lead"),
    }
    match cache.on_get(&key, 0) {
        GetAction::Wait => {},
        _ => panic!("second caller must wait"),
    }
    match cache.on_get(&key, 5) {
        GetAction::Wait => {},
        _ => panic!("every further caller must wait"),
    }
    cache.store(&key, airport("Zurich", "ZRH"), 10);
    match cache.on_get(&key, 11) {
        GetAction::Hit(v) => assert_eq!(v.iata, "ZRH"),
        _ => panic!("waiter must see the stored value"),
    }
    match cache.on_get(&key, 12) {
        GetAction::Hit(v) => assert_eq!(v.name, "Zurich"),
        _ => panic!("both waiters see the same value"),
    }
}

#[test]
fn failure_is_not_stored() {
    // A failed load leaves the key absent: the next access runs the loader
    // again.
    let mut cache = FlightCache::new();
    let key = String::from("192.0.2.33");
    match cache.on_get(&key, 0) {
        GetAction::Lead => {},
        _ => panic!("first access must lead"),
    }
    cache.clear(&key);
    match cache.on_get(&key, 1) {
        GetAction::Lead => {},
        _ => panic!("after a failure the loader must run again"),
    }
}

#[test]
fn keys_are_independent() {
    let mut cache = FlightCache::new();
    let a = String::from("10.0.0.1");
    let b = String::from("10.0.0.2");
    cache.store(&a, airport("Kloten", "ZRH"), 0);
    match cache.on_get(&b, 1) {
        GetAction::Lead => {},
        _ => panic!("a different key must miss"),
    }
    cache.clear(&b);
    match cache.on_get(&a, 2) {
        GetAction::Hit(v) => assert_eq!(v.iata, "ZRH"),
        _ => panic!("clearing one key must not touch another"),
    }
}

#[test]
fn expired_key_goes_in_flight() {
    let mut cache = FlightCache::new();
    let key = String::from("10.0.0.1");
    cache.store(&key, airport("Old", "OLD"), 0);
    match cache.on_get(&key, CACHE_TTL_MS) {
        GetAction::Lead => {},
        _ => panic!("expired entry must be reloaded"),
    }
    // The reload is in flight: another caller waits instead of leading.
    match cache.on_get(&key, CACHE_TTL_MS) {
        GetAction::Wait => {},
        _ => panic!("the reload must be single-flight"),
    }
}
