//! The TOML format adapter: parsing is delegated to the toml crate, the
//! resulting tree is converted into the shared [`ConfigValue`] model, and the
//! verified flattener does the rest.

use vstd::prelude::*;

use crate::flatten::{dedup_entries, flat_entries, flatten, FlatMap};
use crate::parser::{ConfigError, ConfigParser};
use crate::value::ConfigValue;

verus! {

/// Parses TOML configuration documents.
pub struct TomlParser;

impl TomlParser {
    /// A TOML parser.
    pub fn new() -> (r: Self) {
        TomlParser
    }
}

/// Declares the toml::Value tree type to the verifier; values of it
/// are opaque and only pass through the trusted conversion below.
#[verifier::external_type_specification]
#[verifier::external_body]
pub struct ExTomlValue(toml::Value);

/// What parsing a given text as TOML yields: the document tree for
/// valid TOML text, nothing for invalid text. Parsing is a function of
/// the text alone, so its result carries a name rather than a definition.
pub uninterp spec fn toml_doc(s: Seq<char>) -> Option<ConfigValue>;

/// Relies on `toml::from_str`: valid TOML text becomes a value tree,
/// converted node for node by `value_from_toml`; invalid text becomes
/// the parser's diagnostic message.
#[verifier::external_body]
fn parse_toml_text(content: &str) -> (r: Result<ConfigValue, String>)
    ensures
        match r {
            Ok(v) => toml_doc(content@) == Some(v),
            Err(_) => toml_doc(content@) is None,
        },
{
    match toml::from_str::<toml::Value>(content) {
        Ok(v) => Ok(value_from_toml(&v)),
        Err(e) => Err(e.to_string()),
    }
}

/// Relies on `toml::Value`: each variant maps to the matching [`ConfigValue`]
/// variant; integers stay integers, floats keep the toml crate's own
/// rendering, and datetimes are carried as their display text.
#[verifier::external_body]
fn value_from_toml(v: &toml::Value) -> ConfigValue {
    match v {
        toml::Value::String(s) => ConfigValue::Text(s.clone()),
        toml::Value::Integer(i) => ConfigValue::Int(*i),
        toml::Value::Float(n) => ConfigValue::Number(n.to_string()),
        toml::Value::Boolean(b) => ConfigValue::Bool(*b),
        toml::Value::Datetime(d) => ConfigValue::Text(d.to_string()),
        toml::Value::Array(a) => ConfigValue::Sequence(a.iter().map(value_from_toml).collect()),
        toml::Value::Table(t) => ConfigValue::Mapping(t.iter().map(|(k, x)| (k.clone(), value_from_toml(x))).collect()),
    }
}

impl ConfigParser for TomlParser {
    open spec fn format_name(&self) -> Seq<char> {
        seq!['t', 'o', 'm', 'l']
    }

    open spec fn doc_of(&self, content: Seq<char>) -> Option<ConfigValue> {
        toml_doc(content)
    }

    fn parse(&self, content: &str) -> (r: Result<FlatMap, ConfigError>) {
        match parse_toml_text(content) {
            Ok(v) => {
                let m = flatten(&v);
                proof {
                    assert(m.entries_view() == dedup_entries(flat_entries(v, Seq::empty())));
                }
                Ok(m)
            },
            Err(msg) => Err(ConfigError::Parse(msg)),
        }
    }

    fn name(&self) -> (r: &str) {
        let s = "toml";
        proof {
            reveal_strlit("toml");
            assert(s@ =~= seq!['t', 'o', 'm', 'l']);
        }
        s
    }
}

} // verus!
