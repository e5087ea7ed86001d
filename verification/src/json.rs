//! Trusted declarations around `serde_json`: the opaque value and map
//! types and thin wrappers over the accessor calls the library needs.
//! Nothing is promised of parsed JSON; verified callers treat every
//! outcome.
use vstd::prelude::*;

verus! {

#[verifier::external_type_specification]
#[verifier::external_body]
pub struct ExValue(serde_json::Value);

#[verifier::external_type_specification]
#[verifier::external_body]
#[verifier::reject_recursive_types(K)]
#[verifier::reject_recursive_types(V)]
pub struct ExMap<K, V>(serde_json::Map<K, V>);

/// Relies on serde_json::from_str::<Value>: parses a JSON document, or
/// fails; the error is dropped.
#[verifier::external_body]
pub(crate) fn json_parse(s: &str) -> Option<serde_json::Value> {
    serde_json::from_str::<serde_json::Value>(s).ok()
}

/// Relies on serde_json::Value::get: the value at a string key of a JSON
/// object, `None` for other value kinds or a missing key.
#[verifier::external_body]
pub(crate) fn json_get<'a>(v: &'a serde_json::Value, key: &str) -> Option<&'a serde_json::Value> {
    v.get(key)
}

/// Relies on serde_json::Value::as_str: the content of a JSON string
/// value, `None` for other kinds.
#[verifier::external_body]
pub(crate) fn json_as_str(v: &serde_json::Value) -> Option<String> {
    v.as_str().map(|s| s.to_string())
}

/// Relies on serde_json::Value::as_object: the underlying map of a JSON
/// object, `None` for other kinds.
#[verifier::external_body]
pub(crate) fn json_as_object<'a>(v: &'a serde_json::Value) -> Option<
    &'a serde_json::Map<String, serde_json::Value>,
> {
    v.as_object()
}

/// Relies on serde_json::Map::keys: the keys of a JSON object, in the
/// map's iteration order.
#[verifier::external_body]
pub(crate) fn json_map_keys(m: &serde_json::Map<String, serde_json::Value>) -> Vec<String> {
    m.keys().cloned().collect()
}

/// Relies on serde_json::Map::get: the value at a key.
#[verifier::external_body]
pub(crate) fn json_map_get<'a>(
    m: &'a serde_json::Map<String, serde_json::Value>,
    key: &str,
) -> Option<&'a serde_json::Value> {
    m.get(key)
}

} // verus!
