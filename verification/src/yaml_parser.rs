//! The YAML format adapter: parsing is delegated to serde_yaml, the
//! resulting tree is converted into the shared [`ConfigValue`] model, and the
//! verified flattener does the rest.

use vstd::prelude::*;

use crate::flatten::{dedup_entries, flat_entries, flatten, FlatMap};
use crate::parser::{ConfigError, ConfigParser};
use crate::value::ConfigValue;

verus! {

/// Parses YAML configuration documents.
pub struct YamlParser;

impl YamlParser {
    /// A YAML parser.
    pub fn new() -> (r: Self) {
        YamlParser
    }
}

/// Declares the serde_yaml::Value tree type to the verifier; values of it
/// are opaque and only pass through the trusted conversion below.
#[verifier::external_type_specification]
#[verifier::external_body]
pub struct ExYamlValue(serde_yaml::Value);

/// What parsing a given text as YAML yields: the document tree for
/// parseable YAML text, nothing for invalid text. Parsing is a function of
/// the text alone, so its result carries a name rather than a definition.
pub uninterp spec fn yaml_doc(s: Seq<char>) -> Option<ConfigValue>;

/// Relies on `serde_yaml::from_str`: valid YAML text becomes a value
/// tree, converted node for node by `value_from_yaml`; invalid text
/// becomes the parser's diagnostic message.
#[verifier::external_body]
fn parse_yaml_text(content: &str) -> (r: Result<ConfigValue, String>)
    ensures
        match r {
            Ok(v) => yaml_doc(content@) == Some(v),
            Err(_) => yaml_doc(content@) is None,
        },
{
    match serde_yaml::from_str::<serde_yaml::Value>(content) {
        Ok(v) => Ok(value_from_yaml(&v)),
        Err(e) => Err(e.to_string()),
    }
}

/// Relies on `serde_yaml::Value`: each variant maps to the matching
/// [`ConfigValue`] variant; numbers that fit `i64` stay integers, other
/// numbers keep serde_yaml's own rendering, and a tagged value stands
/// for its inner value.
#[verifier::external_body]
fn value_from_yaml(v: &serde_yaml::Value) -> ConfigValue {
    match v {
        serde_yaml::Value::Null => ConfigValue::Null,
        serde_yaml::Value::Bool(b) => ConfigValue::Bool(*b),
        serde_yaml::Value::Number(n) => match n.as_i64() {
            Some(i) => ConfigValue::Int(i),
            None => ConfigValue::Number(n.to_string()),
        },
        serde_yaml::Value::String(s) => ConfigValue::Text(s.clone()),
        serde_yaml::Value::Sequence(a) => ConfigValue::Sequence(a.iter().map(value_from_yaml).collect()),
        serde_yaml::Value::Mapping(m) => ConfigValue::Mapping(m.iter().map(|(k, x)| (yaml_key_text(k), value_from_yaml(x))).collect()),
        serde_yaml::Value::Tagged(t) => value_from_yaml(&t.value),
    }
}

/// Relies on `serde_yaml::Value` for mapping keys: a string key is taken
/// verbatim; a scalar key is rendered by the same rules as a leaf value
/// (numbers in decimal, booleans as text, null empty); a container key
/// renders empty.
#[verifier::external_body]
fn yaml_key_text(k: &serde_yaml::Value) -> String {
    match k {
        serde_yaml::Value::String(s) => s.clone(),
        serde_yaml::Value::Bool(b) => b.to_string(),
        serde_yaml::Value::Number(n) => n.to_string(),
        _ => String::new(),
    }
}

impl ConfigParser for YamlParser {
    open spec fn format_name(&self) -> Seq<char> {
        seq!['y', 'a', 'm', 'l']
    }

    open spec fn doc_of(&self, content: Seq<char>) -> Option<ConfigValue> {
        yaml_doc(content)
    }

    fn parse(&self, content: &str) -> (r: Result<FlatMap, ConfigError>) {
        match parse_yaml_text(content) {
            Ok(v) => {
                let m = flatten(&v);
                proof {
                    assert(m.entries_view() == dedup_entries(flat_entries(v, Seq::empty())));
                }
                Ok(m)
            },
            Err(msg) => Err(ConfigError::Parse(msg)),
        }
    }

    fn name(&self) -> (r: &str) {
        let s = "yaml";
        proof {
            reveal_strlit("yaml");
            assert(s@ =~= seq!['y', 'a', 'm', 'l']);
        }
        s
    }
}

} // verus!
