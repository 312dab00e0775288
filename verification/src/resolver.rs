//! The airport resolver: from a client IP text to the name and IATA code of
//! the nearest large airport, as a pipeline of pure steps. The two HTTPS GET
//! requests between the steps are the caller's business; every decision is
//! verified here.

use vstd::prelude::*;
use crate::errors::ResolveError;
use crate::upstream::{
    RawFeature, features_view, parse_features_body, parse_geolocate_body,
    parsed_features, parsed_geo, spec_airport_url, spec_geolocate_url, airport_url,
    geolocate_url,
};

verus! {

/// The value the resolver returns and the cache stores.
pub struct ResolvedAirport {
    pub name: String,
    pub iata: String,
}

impl Clone for ResolvedAirport {
    fn clone(&self) -> (r: Self)
        ensures
            r == *self,
    {
        ResolvedAirport { name: self.name.clone(), iata: self.iata.clone() }
    }
}

/// The loopback sentinel asks the upstream to geolocate its own view of the
/// caller: it is sent as an empty path segment.
pub open spec fn spec_effective_ip(ip: Seq<char>) -> Seq<char> {
    if ip == "127.0.0.1"@ {
        Seq::<char>::empty()
    } else {
        ip
    }
}

pub fn effective_ip(ip: &String) -> (r: String)
    ensures
        r@ == spec_effective_ip(ip@),
{
    let loopback: String = String::from_str("127.0.0.1");
    if *ip == loopback {
        String::new()
    } else {
        ip.clone()
    }
}

/// The first resolver step: the geolocation URL for a client IP, with the
/// loopback sentinel rewritten to the empty segment.
pub fn geolocate_url_for(ip: &String) -> (r: String)
    ensures
        r@ == spec_geolocate_url(spec_effective_ip(ip@)),
{
    let eff: String = effective_ip(ip);
    geolocate_url(&eff)
}

/// The second resolver step: from the geolocation body to the nearest-airport
/// URL (longitude first, then latitude). A malformed body is the schema
/// error, and nothing else is.
pub fn airport_url_from_geo(body: &str) -> (r: Result<String, ResolveError>)
    ensures
        match r {
            Ok(u) => parsed_geo(body@) matches Some(g) && u@ == spec_airport_url(g.1, g.0),
            Err(e) => e == ResolveError::UpstreamSchema && parsed_geo(body@) is None,
        },
{
    match parse_geolocate_body(body) {
        Some(g) => Ok(airport_url(&g)),
        None => Err(ResolveError::UpstreamSchema),
    }
}

/// Index `i` picks the nearest feature of `s`: no feature has a smaller
/// distance key, and every earlier feature has a strictly larger one (ties
/// go to the first occurrence in document order).
pub open spec fn nearest_first_index(s: Seq<RawFeature>, i: int) -> bool {
    &&& 0 <= i < s.len()
    &&& forall|j: int| 0 <= j < s.len() ==> s[i].distance_key <= (#[trigger] s[j]).distance_key
    &&& forall|j: int| 0 <= j < i ==> s[i].distance_key < (#[trigger] s[j]).distance_key
}

/// The same selection rule over the plain-value feature list.
pub open spec fn nearest_first_tuple(s: Seq<(Seq<char>, Seq<char>, u64)>, i: int) -> bool {
    &&& 0 <= i < s.len()
    &&& forall|j: int| 0 <= j < s.len() ==> s[i].2 <= (#[trigger] s[j]).2
    &&& forall|j: int| 0 <= j < i ==> s[i].2 < (#[trigger] s[j]).2
}

/// The two forms of the selection rule agree.
pub proof fn lemma_nearest_views_agree(s: Seq<RawFeature>, i: int)
    ensures
        nearest_first_index(s, i) <==> nearest_first_tuple(features_view(s), i),
{
    let t = features_view(s);
    assert(t.len() == s.len());
    if nearest_first_index(s, i) {
        assert forall|j: int| 0 <= j < t.len() implies t[i].2 <= (#[trigger] t[j]).2 by {
            assert(t[j].2 == s[j].distance_key);
            assert(t[i].2 == s[i].distance_key);
        }
        assert forall|j: int| 0 <= j < i implies t[i].2 < (#[trigger] t[j]).2 by {
            assert(t[j].2 == s[j].distance_key);
            assert(t[i].2 == s[i].distance_key);
        }
        assert(nearest_first_tuple(t, i));
    }
    if nearest_first_tuple(t, i) {
        assert forall|j: int|
            0 <= j < s.len() implies s[i].distance_key <= (#[trigger] s[j]).distance_key by {
            assert(t[j].2 == s[j].distance_key);
            assert(t[i].2 == s[i].distance_key);
        }
        assert forall|j: int| 0 <= j < i implies s[i].distance_key < (#[trigger] s[j]).distance_key
        by {
            assert(t[j].2 == s[j].distance_key);
            assert(t[i].2 == s[i].distance_key);
        }
        assert(nearest_first_index(s, i));
    }
}

/// The index of the nearest feature: minimum distance key, ties resolved to
/// the first occurrence. `None` exactly when there are no features.
pub fn select_nearest(features: &Vec<RawFeature>) -> (r: Option<usize>)
    ensures
        match r {
            Some(i) => nearest_first_index(features@, i as int),
            None => features@.len() == 0,
        },
{
    if features.len() == 0 {
        return None;
    }
    let mut best: usize = 0;
    let mut i: usize = 1;
    while i < features.len()
        invariant
            features@.len() > 0,
            best < i <= features@.len(),
            forall|j: int|
                0 <= j < i ==> features@[best as int].distance_key <= (
                #[trigger] features@[j]).distance_key,
            forall|j: int|
                0 <= j < best ==> features@[best as int].distance_key < (
                #[trigger] features@[j]).distance_key,
        decreases features@.len() - i,
    {
        if features[i].distance_key < features[best].distance_key {
            best = i;
        }
        i += 1;
    }
    Some(best)
}

/// `a` is the nearest feature of a parsed feature list: some index picks it
/// by the selection rule, and `a` carries that feature's IATA code and name.
pub open spec fn picks_nearest(fs: Seq<(Seq<char>, Seq<char>, u64)>, a: ResolvedAirport) -> bool {
    exists|i: int|
        #[trigger] nearest_first_tuple(fs, i) && a.iata@ == fs[i].0 && a.name@ == fs[i].1
}

/// The third resolver step: from the airport body to the resolved airport.
/// Success picks the nearest feature; an empty feature list is
/// `NoAirportFound`; a malformed body is `UpstreamSchema`; nothing else
/// fails.
pub fn airport_from_body(body: &str) -> (r: Result<ResolvedAirport, ResolveError>)
    ensures
        match r {
            Ok(a) => parsed_features(body@) matches Some(fs) && picks_nearest(fs, a),
            Err(e) => match e {
                ResolveError::NoAirportFound => parsed_features(body@) matches Some(fs)
                    && fs.len() == 0,
                ResolveError::UpstreamSchema => parsed_features(body@) is None,
                _ => false,
            },
        },
{
    let feats: Vec<RawFeature> = match parse_features_body(body) {
        Some(v) => v,
        None => {
            return Err(ResolveError::UpstreamSchema);
        },
    };
    match select_nearest(&feats) {
        Some(i) => {
            proof {
                lemma_nearest_views_agree(feats@, i as int);
            }
            let a = ResolvedAirport { name: feats[i].name.clone(), iata: feats[i].iata.clone() };
            proof {
                let fs = features_view(feats@);
                assert(fs[i as int] == (
                    feats@[i as int].iata@,
                    feats@[i as int].name@,
                    feats@[i as int].distance_key,
                ));
                assert(picks_nearest(fs, a)) by {
                    assert(nearest_first_tuple(fs, i as int) && a.iata@ == fs[i as int].0
                        && a.name@ == fs[i as int].1);
                }
            }
            Ok(a)
        },
        None => Err(ResolveError::NoAirportFound),
    }
}

} // verus!
