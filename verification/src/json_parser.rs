//! The JSON format adapter: parsing is delegated to serde_json, the
//! resulting tree is converted into the shared [`ConfigValue`] model, and the
//! verified flattener does the rest.

use vstd::prelude::*;

use crate::flatten::{dedup_entries, flat_entries, flatten, FlatMap};
use crate::parser::{ConfigError, ConfigParser};
use crate::value::ConfigValue;

verus! {

/// Parses JSON configuration documents.
pub struct JsonParser;

impl JsonParser {
    /// A JSON parser.
    pub fn new() -> (r: Self) {
        JsonParser
    }
}

/// Declares the serde_json::Value tree type to the verifier; values of it
/// are opaque and only pass through the trusted conversion below.
#[verifier::external_type_specification]
#[verifier::external_body]
pub struct ExJsonValue(serde_json::Value);

/// What parsing a given text as JSON yields: the document tree for
/// RFC 8259 JSON text, nothing for invalid text. Parsing is a function of
/// the text alone, so its result carries a name rather than a definition.
pub uninterp spec fn json_doc(s: Seq<char>) -> Option<ConfigValue>;

/// Relies on `serde_json::from_str`: valid JSON text becomes a value
/// tree, converted node for node by `value_from_json`; invalid text
/// becomes the parser's diagnostic message.
#[verifier::external_body]
fn parse_json_text(content: &str) -> (r: Result<ConfigValue, String>)
    ensures
        match r {
            Ok(v) => json_doc(content@) == Some(v),
            Err(_) => json_doc(content@) is None,
        },
{
    match serde_json::from_str::<serde_json::Value>(content) {
        Ok(v) => Ok(value_from_json(&v)),
        Err(e) => Err(e.to_string()),
    }
}

/// Relies on `serde_json::Value`: each variant maps to the matching
/// [`ConfigValue`] variant; a number that fits `i64` stays an integer, any
/// other number keeps serde_json's own decimal rendering.
#[verifier::external_body]
fn value_from_json(v: &serde_json::Value) -> ConfigValue {
    match v {
        serde_json::Value::Null => ConfigValue::Null,
        serde_json::Value::Bool(b) => ConfigValue::Bool(*b),
        serde_json::Value::Number(n) => match n.as_i64() {
            Some(i) => ConfigValue::Int(i),
            None => ConfigValue::Number(n.to_string()),
        },
        serde_json::Value::String(s) => ConfigValue::Text(s.clone()),
        serde_json::Value::Array(a) => ConfigValue::Sequence(a.iter().map(value_from_json).collect()),
        serde_json::Value::Object(m) => ConfigValue::Mapping(m.iter().map(|(k, x)| (k.clone(), value_from_json(x))).collect()),
    }
}

impl ConfigParser for JsonParser {
    open spec fn format_name(&self) -> Seq<char> {
        seq!['j', 's', 'o', 'n']
    }

    open spec fn doc_of(&self, content: Seq<char>) -> Option<ConfigValue> {
        json_doc(content)
    }

    fn parse(&self, content: &str) -> (r: Result<FlatMap, ConfigError>) {
        match parse_json_text(content) {
            Ok(v) => {
                let m = flatten(&v);
                proof {
                    assert(m.entries_view() == dedup_entries(flat_entries(v, Seq::empty())));
                }
                Ok(m)
            },
            Err(msg) => Err(ConfigError::Parse(msg)),
        }
    }

    fn name(&self) -> (r: &str) {
        let s = "json";
        proof {
            reveal_strlit("json");
            assert(s@ =~= seq!['j', 's', 'o', 'n']);
        }
        s
    }
}

} // verus!
