//! Reading the text of a server message as a JSON value, with the `json`
//! crate's parser.
use vstd::prelude::*;
use crate::json::Json;

verus! {

/// The `json` crate's value type, carried through only by the parser's
/// wrapper below.
#[verifier::external_type_specification]
#[verifier::external_body]
pub struct ExJsonValue(::json::JsonValue);

/// What `json::parse` gives for a text, as the library's value: `None` where
/// the parser reports an error.
pub uninterp spec fn parsed_json(text: Seq<char>) -> Option<Json>;

/// The library's value for a value of the `json` crate, one variant for one
/// variant; a number keeps the parts that `Number::as_parts` gives.
#[verifier::external_body]
fn from_value(v: &::json::JsonValue) -> Json {
    match v {
        ::json::JsonValue::Null => Json::Null,
        ::json::JsonValue::Short(s) => Json::Str(s.to_string()),
        ::json::JsonValue::String(s) => Json::Str(s.clone()),
        ::json::JsonValue::Number(n) => {
            let (positive, mantissa, exponent) = n.as_parts();
            Json::Number(positive, mantissa, exponent)
        },
        ::json::JsonValue::Boolean(b) => Json::Boolean(*b),
        ::json::JsonValue::Object(o) => Json::Object(o.iter().map(|(k, x)| (k.to_string(), from_value(x))).collect()),
        ::json::JsonValue::Array(a) => Json::Array(a.iter().map(from_value).collect()),
    }
}

/// Calls `json::parse` on `text`. The contract claims only that the result
/// is a function of the text alone (`parsed_json`): the parser's grammar is
/// not restated here.
#[verifier::external_body]
pub fn parse_json(text: &str) -> (r: Option<Json>)
    ensures
        r == parsed_json(text@),
{
    match ::json::parse(text) {
        Ok(v) => Some(from_value(&v)),
        Err(_) => None,
    }
}

} // verus!
