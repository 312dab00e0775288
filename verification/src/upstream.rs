//! The upstream client: URL construction for the two upstream services and
//! the parsing of their JSON bodies into typed values.
//!
//! Only the JSON parsing itself is delegated to serde_json, behind trusted
//! wrappers; everything around it is verified.

use vstd::prelude::*;

verus! {

/// Coordinates as the upstream reported them: the decimal texts of the
/// numeric `latitude` and `longitude` fields, kept verbatim for the
/// follow-up request.
pub struct GeoCoords {
    pub latitude: String,
    pub longitude: String,
}

/// One airport feature as parsed from the upstream body. `distance_key` is an
/// order-preserving stand-in for the reported distance: comparing two keys
/// orders the features as comparing their (non-negative) distances would.
pub struct RawFeature {
    pub iata: String,
    pub name: String,
    pub distance_key: u64,
}

/// The features of a parsed body as plain values: per feature the `iata`
/// text, the `name` text and the distance key, in document order.
pub open spec fn features_view(s: Seq<RawFeature>) -> Seq<(Seq<char>, Seq<char>, u64)> {
    Seq::new(s.len(), |i: int| (s[i].iata@, s[i].name@, s[i].distance_key))
}

/// What `parse_geolocate_body` extracts from a geolocation body: the latitude
/// and longitude texts when the body is a JSON object with numeric `latitude`
/// and `longitude` fields, `None` otherwise.
pub uninterp spec fn parsed_geo(body: Seq<char>) -> Option<(Seq<char>, Seq<char>)>;

/// What `parse_features_body` extracts from an airport body: the feature list
/// as `features_view` presents it when the body is a JSON object whose
/// `features` array has the expected shape throughout, `None` otherwise.
pub uninterp spec fn parsed_features(body: Seq<char>) -> Option<Seq<(Seq<char>, Seq<char>, u64)>>;

/// Relies on serde_json::from_str and serde_json::Value::{get, as_number}:
/// what a fixed JSON shape parses to is a function of the body text alone.
/// Returns the latitude and longitude texts of a well-shaped geolocation
/// body, `None` for any other body.
#[verifier::external_body]
pub(crate) fn parse_geolocate_body(body: &str) -> (r: Option<GeoCoords>)
    ensures
        match r {
            Some(g) => parsed_geo(body@) == Some((g.latitude@, g.longitude@)),
            None => parsed_geo(body@) is None,
        },
{
    let v: serde_json::Value = serde_json::from_str(body).ok()?;
    let lat = v.get("latitude")?.as_number()?;
    let lon = v.get("longitude")?.as_number()?;
    Some(GeoCoords { latitude: format!("{}", lat), longitude: format!("{}", lon) })
}

/// Relies on serde_json::from_str and serde_json::Value::{get, as_array,
/// as_str, as_f64}: what a fixed JSON shape parses to is a function of the
/// body text alone. Returns the feature list of a well-shaped airport body,
/// `None` for any other body; the distance key of a feature is the IEEE-754
/// bit pattern of its reported distance, which orders non-negative distances
/// as the numbers themselves.
#[verifier::external_body]
pub(crate) fn parse_features_body(body: &str) -> (r: Option<Vec<RawFeature>>)
    ensures
        match r {
            Some(v) => parsed_features(body@) == Some(features_view(v@)),
            None => parsed_features(body@) is None,
        },
{
    let doc: serde_json::Value = serde_json::from_str(body).ok()?;
    let feats = doc.get("features")?.as_array()?;
    let mut out: Vec<RawFeature> = Vec::new();
    for f in feats {
        let p = f.get("properties")?;
        let key = p.get("distance")?.as_f64()?.to_bits();
        let iata = p.get("iata")?.as_str()?.to_owned();
        let name = p.get("name")?.as_str()?.to_owned();
        out.push(RawFeature { iata, name, distance_key: key });
    }
    Some(out)
}

/// The geolocation URL for an IP text; the empty text yields the trailing
/// slash that asks the upstream to geolocate the caller itself.
pub open spec fn spec_geolocate_url(ip: Seq<char>) -> Seq<char> {
    "https://freeipapi.com/api/json/"@ + ip
}

pub fn geolocate_url(ip: &String) -> (r: String)
    ensures
        r@ == spec_geolocate_url(ip@),
{
    let mut u: String = String::from_str("https://freeipapi.com/api/json/");
    u.append(ip.as_str());
    u
}

/// The nearest-airport URL. The path carries the longitude first, then the
/// latitude: the upstream mandates that order.
pub open spec fn spec_airport_url(longitude: Seq<char>, latitude: Seq<char>) -> Seq<char> {
    "https://port-api.com/airport/near/"@ + longitude + "/"@ + latitude
        + "?search_radius=1000000000&airport_size=large_airport"@
}

pub fn airport_url(coords: &GeoCoords) -> (r: String)
    ensures
        r@ == spec_airport_url(coords.longitude@, coords.latitude@),
{
    let mut u: String = String::from_str("https://port-api.com/airport/near/");
    u.append(coords.longitude.as_str());
    u.append("/");
    u.append(coords.latitude.as_str());
    u.append("?search_radius=1000000000&airport_size=large_airport");
    u
}

} // verus!
