//! Trusted boundary to the JSON parser.  The dictionary dump is
//! line-delimited JSON; parsing a line and peeking into the resulting value
//! are the only operations the importer takes on trust.  Each peeked value
//! carries a mathematical model — [`JsonV`] — and every wrapper's contract
//! says exactly what the call returns in terms of that model, so the decoder
//! downstream is specified all the way back to the line text.

use vstd::prelude::*;

verus! {

/// The parsed shape of a JSON value, as the dump schema reads it.  The
/// schema never consumes a number's value, so the model does not carry it.
pub ghost enum JsonV {
    Null,
    Bool(bool),
    Number,
    Str(Seq<char>),
    Arr(Seq<JsonV>),
    Obj(Map<Seq<char>, JsonV>),
}

/// Field lookup on a model, mirroring `serde_json::Value::get`: `None` on
/// anything that is not an object with that key.
pub open spec fn jfield(m: JsonV, k: Seq<char>) -> Option<JsonV> {
    if m is Obj && m->Obj_0.contains_key(k) {
        Some(m->Obj_0[k])
    } else {
        None
    }
}

/// The models of a sequence of JSON values.
pub open spec fn models_of(a: Seq<serde_json::Value>) -> Seq<JsonV> {
    a.map_values(|v: serde_json::Value| json_model(v))
}

/// Pointwise reading of [`models_of`].
pub proof fn lemma_models_of_index(a: Seq<serde_json::Value>)
    ensures
        models_of(a).len() == a.len(),
        forall|k: int| 0 <= k < a.len() ==> #[trigger] models_of(a)[k] == json_model(a[k]),
{
}

#[verifier::external_type_specification]
#[verifier::external_body]
pub struct ExValue(serde_json::Value);

/// Whether a piece of text is a well-formed JSON document; the meaning of
/// this name is fixed by [`parse_json`].
pub uninterp spec fn json_ok(s: Seq<char>) -> bool;

/// The model of the value that parsing a well-formed text yields; like
/// [`json_ok`], a function of the text alone, fixed by [`parse_json`].
pub uninterp spec fn json_of(s: Seq<char>) -> JsonV;

/// The model a JSON value holds: what the accessors below jointly read out
/// of it.
pub uninterp spec fn json_model(v: serde_json::Value) -> JsonV;

/// Relies on `serde_json::from_str`: a line parses to a JSON value exactly
/// when the text is well-formed JSON, and both the outcome and the parsed
/// value are functions of the text alone.
#[verifier::external_body]
pub(crate) fn parse_json(s: &str) -> (r: Option<serde_json::Value>)
    ensures
        r is Some <==> json_ok(s@),
        r is Some ==> json_model(r->0) == json_of(s@),
{
    serde_json::from_str(s).ok()
}

/// Relies on `serde_json::Value::get`: looks a key up in a JSON object and
/// returns `None` on any value that is not an object with that key.
#[verifier::external_body]
pub(crate) fn json_get<'a>(v: &'a serde_json::Value, key: &str) -> (r: Option<
    &'a serde_json::Value,
>)
    ensures
        r is Some <==> jfield(json_model(*v), key@) is Some,
        r is Some ==> json_model(*r->0) == jfield(json_model(*v), key@)->0,
{
    v.get(key)
}

/// Relies on `serde_json::Value::as_str`: the content of a JSON string
/// value, `None` for every other kind of value.
#[verifier::external_body]
pub(crate) fn json_as_str(v: &serde_json::Value) -> (r: Option<String>)
    ensures
        r is Some <==> json_model(*v) is Str,
        r is Some ==> (r->0)@ == json_model(*v)->Str_0,
{
    v.as_str().map(str::to_owned)
}

/// Relies on `serde_json::Value::as_array`: the elements of a JSON array,
/// in order, `None` for every other kind of value.
#[verifier::external_body]
pub(crate) fn json_as_array<'a>(v: &'a serde_json::Value) -> (r: Option<
    &'a Vec<serde_json::Value>,
>)
    ensures
        r is Some <==> json_model(*v) is Arr,
        r is Some ==> models_of((r->0)@) == json_model(*v)->Arr_0,
{
    v.as_array()
}

} // verus!
