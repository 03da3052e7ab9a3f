use vstd::prelude::*;
use crate::numbits::JsonNumber;

verus! {

/// A JSON value, as the JSON parser and serialiser see it.
pub enum JsonValue {
    Null,
    Bool(bool),
    Number(JsonNumber),
    String(String),
    Array(Vec<JsonValue>),
    Object(Vec<(String, JsonValue)>),
}

/// The mathematical form of a JSON value: texts as character sequences.
pub enum JsonModel {
    Null,
    Bool(bool),
    Number(JsonNumber),
    String(Seq<char>),
    Array(Seq<JsonModel>),
    Object(Seq<(Seq<char>, JsonModel)>),
}

impl JsonValue {
    /// The mathematical form of this value.
    pub open spec fn model(&self) -> JsonModel
        decreases self,
    {
        match self {
            JsonValue::Null => JsonModel::Null,
            JsonValue::Bool(b) => JsonModel::Bool(*b),
            JsonValue::Number(n) => JsonModel::Number(*n),
            JsonValue::String(s) => JsonModel::String(s@),
            JsonValue::Array(items) => JsonModel::Array(
                Seq::new(
                    items@.len(),
                    |i: int|
                        if 0 <= i < items@.len() {
                            items@[i].model()
                        } else {
                            JsonModel::Null
                        },
                ),
            ),
            JsonValue::Object(pairs) => JsonModel::Object(
                Seq::new(
                    pairs@.len(),
                    |i: int|
                        if 0 <= i < pairs@.len() {
                            (pairs@[i].0@, pairs@[i].1.model())
                        } else {
                            (Seq::empty(), JsonModel::Null)
                        },
                ),
            ),
        }
    }
}

/// Whether no JSON object, at any depth, holds a key twice (as a parsed JSON map never does).
pub open spec fn keys_distinct(m: JsonModel) -> bool
    decreases m,
{
    match m {
        JsonModel::Array(items) => forall|i: int| 0 <= i < items.len() ==> keys_distinct(#[trigger] items[i]),
        JsonModel::Object(pairs) => {
            &&& forall|i: int, j: int| 0 <= i < j < pairs.len() ==> (#[trigger] pairs[i]).0 != (#[trigger] pairs[j]).0
            &&& forall|i: int| 0 <= i < pairs.len() ==> keys_distinct((#[trigger] pairs[i]).1)
        },
        _ => true,
    }
}

/// Whether a JSON value holds an array, at any depth.
pub open spec fn contains_array(m: JsonModel) -> bool
    decreases m,
{
    match m {
        JsonModel::Array(_) => true,
        JsonModel::Object(pairs) => exists|i: int| 0 <= i < pairs.len() && contains_array((#[trigger] pairs[i]).1),
        _ => false,
    }
}

/// What `serde_json` makes of a text parsed as a JSON value: the value (numbers as the
/// doubles it reads them as), or the text of its error.
pub uninterp spec fn json_parse_outcome(text: Seq<char>) -> Result<JsonModel, Seq<char>>;

#[verifier::external_type_specification]
#[verifier::external_body]
pub struct ExSerdeJsonValue(serde_json::Value);

/// `serde_json::from_str::<serde_json::Value>` on `text`, its value converted one for one into
/// a `JsonValue` (each number as the bits of `Number::as_f64`) and its error into the error's
/// text. Its outcome is named `json_parse_outcome`; the JSON grammar is not stated. Its maps
/// hold each key once, so no object of a parsed value repeats a key.
#[verifier::external_body]
pub(crate) fn parse_json_text(text: &str) -> (r: Result<JsonValue, String>)
    ensures
        match (r, json_parse_outcome(text@)) {
            (Ok(v), Ok(m)) => v.model() == m && keys_distinct(m),
            (Err(e), Err(m)) => e@ == m,
            _ => false,
        },
{
    match serde_json::from_str::<serde_json::Value>(text) {
        Ok(v) => Ok(json_from_serde(&v)),
        Err(e) => Err(e.to_string()),
    }
}

/// Converts a `serde_json::Value` into a `JsonValue`, variant for variant.
#[verifier::external_body]
fn json_from_serde(v: &serde_json::Value) -> JsonValue {
    match v {
        serde_json::Value::Null => JsonValue::Null,
        serde_json::Value::Bool(b) => JsonValue::Bool(*b),
        serde_json::Value::Number(n) => JsonValue::Number(JsonNumber::Float(n.as_f64().unwrap_or_default().to_bits())),
        serde_json::Value::String(s) => JsonValue::String(s.clone()),
        serde_json::Value::Array(a) => JsonValue::Array(a.iter().map(json_from_serde).collect()),
        serde_json::Value::Object(m) => JsonValue::Object(m.iter().map(|(k, x)| (k.clone(), json_from_serde(x))).collect()),
    }
}

} // verus!
