//! Access to parsed JSON values through `serde_json`.
//!
//! A `serde_json::Value` is opaque here: what each accessor returns is given
//! a name, and every name is a function of the value and key alone, so the
//! parser's own key-fallback logic on top of these is fully verified.
use vstd::prelude::*;

verus! {

/// Declares serde_json's `Value` so signatures and fields can carry it;
/// its inside stays opaque and is read only through the accessors below.
#[verifier::external_type_specification]
#[verifier::external_body]
pub struct ExValue(serde_json::Value);

/// The document a text parses to, or `None` when the text is not valid
/// JSON; a function of the text alone.
pub uninterp spec fn json_doc_of(s: Seq<char>) -> Option<serde_json::Value>;

/// The member of a JSON object under `key`: `None` when the value is not an
/// object or has no such member.
pub uninterp spec fn json_member(v: serde_json::Value, key: Seq<char>) -> Option<
    serde_json::Value,
>;

/// The characters of a JSON string value, `None` for any other kind.
pub uninterp spec fn json_as_str(v: serde_json::Value) -> Option<Seq<char>>;

/// A JSON number read as a 64-bit integer: a signed integer as itself, an
/// unsigned one wrapped into `i64`, `None` for any other kind.
pub uninterp spec fn json_as_int(v: serde_json::Value) -> Option<i64>;

/// The decimal rendering of a JSON number, `None` for any other kind.
pub uninterp spec fn json_number_text(v: serde_json::Value) -> Option<Seq<char>>;

/// Relies on serde_json's `from_str`: the parsed document, or `None` when
/// the text is not valid JSON; a function of the text alone.
#[verifier::external_body]
pub(crate) fn json_parse(s: &str) -> (r: Option<serde_json::Value>)
    ensures
        (match r {
            Some(v) => json_doc_of(s@) == Some(v),
            None => json_doc_of(s@) is None,
        }),
{
    match serde_json::from_str::<serde_json::Value>(s) {
        Ok(v) => Some(v),
        Err(_) => None,
    }
}

/// Relies on serde_json's `Value::get`: the member under `key`, a function
/// of the value and key alone.
#[verifier::external_body]
pub(crate) fn json_get<'a>(v: &'a serde_json::Value, key: &str) -> (r: Option<&'a serde_json::Value>)
    ensures
        (match r {
            Some(m) => json_member(*v, key@) == Some(*m),
            None => json_member(*v, key@) is None,
        }),
{
    v.get(key)
}

/// Relies on serde_json's `Value::as_str`: the string content, a function of
/// the value alone.
#[verifier::external_body]
pub(crate) fn json_str(v: &serde_json::Value) -> (r: Option<String>)
    ensures
        (match r {
            Some(s) => json_as_str(*v) == Some(s@),
            None => json_as_str(*v) is None,
        }),
{
    match v.as_str() {
        Some(s) => Some(s.to_string()),
        None => None,
    }
}

/// Relies on serde_json's `Value::as_i64` and `Value::as_u64`: the number as
/// a 64-bit integer, a function of the value alone.
#[verifier::external_body]
pub(crate) fn json_int(v: &serde_json::Value) -> (r: Option<i64>)
    ensures
        r == json_as_int(*v),
{
    match v.as_i64() {
        Some(n) => Some(n),
        None => match v.as_u64() {
            Some(n) => Some(n as i64),
            None => None,
        },
    }
}

/// Relies on serde_json's `Value::is_number` and its `Display`: the number's
/// decimal text, a function of the value alone.
#[verifier::external_body]
pub(crate) fn json_num_text(v: &serde_json::Value) -> (r: Option<String>)
    ensures
        (match r {
            Some(s) => json_number_text(*v) == Some(s@),
            None => json_number_text(*v) is None,
        }),
{
    if v.is_number() {
        Some(v.to_string())
    } else {
        None
    }
}

} // verus!
