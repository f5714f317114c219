//! Declarations of the outside types and calls that the library relies on.
//! Each contract here is taken on trust; its doc comment names what it
//! rests on.
use vstd::prelude::*;
use dashmap::DashMap;
use crate::runtime::RunRecord;

verus! {

/// A JSON value, carried through the library without being inspected.
#[verifier::external_type_specification]
#[verifier::external_body]
pub struct ExJsonValue(serde_json::Value);

/// Relies on `serde_json::Value`'s `Clone`: it returns; nothing is claimed of
/// the copy, which the library only carries.
pub assume_specification[ <serde_json::Value as Clone>::clone ](v: &serde_json::Value) -> serde_json::Value;

/// The string a JSON pointer addresses in the JSON document held by
/// `bytes`; `None` where the bytes hold no document or the pointer does not
/// address a string.
pub uninterp spec fn json_str_at(bytes: Seq<u8>, pointer: Seq<char>) -> Option<Seq<char>>;

/// The length of the array a JSON pointer addresses in the document held by
/// `bytes`; `None` where there is no such array.
pub uninterp spec fn json_array_len_at(bytes: Seq<u8>, pointer: Seq<char>) -> Option<nat>;

/// The string at position `index` of the array a JSON pointer addresses in
/// the document held by `bytes`; `None` where that element is not a string.
pub uninterp spec fn json_array_str_at(bytes: Seq<u8>, pointer: Seq<char>, index: nat) -> Option<
    Seq<char>,
>;

/// Relies on `serde_json::from_slice`, `Value::pointer` and `Value::as_str`:
/// the result depends on the bytes and the pointer alone.
#[verifier::external_body]
pub(crate) fn json_text(bytes: &[u8], pointer: &str) -> (r: Option<String>)
    ensures
        match r {
            Some(s) => json_str_at(bytes@, pointer@) == Some(s@),
            None => json_str_at(bytes@, pointer@) is None,
        },
{
    match serde_json::from_slice::<serde_json::Value>(bytes) {
        Ok(v) => match v.pointer(pointer) {
            Some(x) => x.as_str().map(str::to_string),
            None => None,
        },
        Err(_) => None,
    }
}

/// Relies on `serde_json::from_slice`, `Value::pointer` and
/// `Value::as_array`: the result depends on the bytes and the pointer alone.
#[verifier::external_body]
pub(crate) fn json_array_len(bytes: &[u8], pointer: &str) -> (r: Option<usize>)
    ensures
        match r {
            Some(n) => json_array_len_at(bytes@, pointer@) == Some(n as nat),
            None => json_array_len_at(bytes@, pointer@) is None,
        },
{
    match serde_json::from_slice::<serde_json::Value>(bytes) {
        Ok(v) => match v.pointer(pointer) {
            Some(x) => x.as_array().map(Vec::len),
            None => None,
        },
        Err(_) => None,
    }
}

/// Relies on `serde_json::from_slice`, `Value::pointer`, `Value::as_array`
/// and `Value::as_str`: the result depends on the bytes, the pointer and the
/// index alone.
#[verifier::external_body]
pub(crate) fn json_array_text(bytes: &[u8], pointer: &str, index: usize) -> (r: Option<String>)
    ensures
        match r {
            Some(s) => json_array_str_at(bytes@, pointer@, index as nat) == Some(s@),
            None => json_array_str_at(bytes@, pointer@, index as nat) is None,
        },
{
    match serde_json::from_slice::<serde_json::Value>(bytes) {
        Ok(v) => match v.pointer(pointer).and_then(serde_json::Value::as_array) {
            Some(a) => a.get(index).and_then(serde_json::Value::as_str).map(str::to_string),
            None => None,
        },
        Err(_) => None,
    }
}

/// A concurrent map, used by the runtime for its per-run records.
#[verifier::external_type_specification]
#[verifier::external_body]
#[verifier::reject_recursive_types(K)]
#[verifier::reject_recursive_types(V)]
#[verifier::reject_recursive_types(S)]
pub struct ExDashMap<K, V, S>(dashmap::DashMap<K, V, S>);

/// The records held by the runtime's map, by run id.
pub uninterp spec fn runs_of(m: DashMap<String, RunRecord>) -> Map<Seq<char>, RunRecord>;

/// Relies on `DashMap::new`: the map starts empty.
#[verifier::external_body]
pub(crate) fn runs_new() -> (r: DashMap<String, RunRecord>)
    ensures
        runs_of(r) =~= Map::empty(),
{
    DashMap::new()
}

/// Relies on `DashMap::insert`: the key then maps to the value, and the
/// value it held before, if any, is returned. Keys are compared by `String`
/// equality, that is by their characters.
#[verifier::external_body]
pub(crate) fn runs_insert(m: &mut DashMap<String, RunRecord>, key: String, value: RunRecord) -> (r:
    Option<RunRecord>)
    ensures
        runs_of(*final(m)) == runs_of(*old(m)).insert(key@, value),
        r == if runs_of(*old(m)).contains_key(key@) {
            Some(runs_of(*old(m))[key@])
        } else {
            None::<RunRecord>
        },
{
    m.insert(key, value)
}

/// Relies on `DashMap::remove`: the entry of the key leaves the map and is
/// returned, stored key and value.
#[verifier::external_body]
pub(crate) fn runs_remove(m: &mut DashMap<String, RunRecord>, key: &str) -> (r: Option<
    (String, RunRecord),
>)
    ensures
        runs_of(*final(m)) == runs_of(*old(m)).remove(key@),
        match r {
            Some((k, v)) => runs_of(*old(m)).contains_key(key@) && k@ == key@ && v == runs_of(
                *old(m),
            )[key@],
            None => !runs_of(*old(m)).contains_key(key@),
        },
{
    m.remove(key)
}

/// Relies on `DashMap::contains_key`.
#[verifier::external_body]
pub(crate) fn runs_contains(m: &DashMap<String, RunRecord>, key: &str) -> (r: bool)
    ensures
        r == runs_of(*m).contains_key(key@),
{
    m.contains_key(key)
}

/// Relies on `uuid::Uuid::new_v4` and its `Display`: a fresh random id in
/// text. Nothing is promised of its characters. It panics only where the
/// operating system's random source fails.
#[verifier::external_body]
pub(crate) fn new_uuid_string() -> (r: String) {
    uuid::Uuid::new_v4().to_string()
}

/// Relies on `chrono::Utc::now` and `DateTime::to_rfc3339`: the current time
/// in text. Nothing is promised of its characters. It panics only where the
/// system clock reads a time before 1970.
#[verifier::external_body]
pub(crate) fn now_rfc3339() -> (r: String) {
    chrono::Utc::now().to_rfc3339()
}

/// Relies on `chrono::Utc::now` and `DateTime::timestamp`: the current time
/// in seconds since 1970. Nothing is promised of it. It panics only where
/// the system clock reads a time before 1970.
#[verifier::external_body]
pub(crate) fn now_unix_secs() -> (r: i64) {
    chrono::Utc::now().timestamp()
}

/// Whether a character is alphabetic or numeric, in Unicode's sense.
pub uninterp spec fn alnum_of(c: char) -> bool;

/// Relies on `char::is_alphanumeric`: the answer depends on the character
/// alone.
#[verifier::external_body]
pub(crate) fn char_is_alphanumeric(c: char) -> (r: bool)
    ensures
        r == alnum_of(c),
{
    c.is_alphanumeric()
}

/// Relies on `chrono::Utc::now`, `chrono::Duration::days` and
/// `DateTime::to_rfc3339`: the time `days` days from now, in text. Nothing
/// is promised of its characters; the bound keeps the duration and the sum
/// in range. Like `Utc::now`, it panics only on a clock before 1970.
#[verifier::external_body]
pub(crate) fn rfc3339_days_from_now(days: i64) -> (r: String)
    requires
        0 <= days <= 36500,
{
    (chrono::Utc::now() + chrono::Duration::days(days)).to_rfc3339()
}

} // verus!
