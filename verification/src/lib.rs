//! Turns structured configuration documents (JSON, YAML, TOML) into flat
//! `KEY=value` environment-variable lines: a parsed document becomes a tree
//! of [`value::ConfigValue`] nodes, the flattener walks the tree into a map from
//! dot-separated paths to leaf text, and the generator formats each path
//! into an environment-variable name and emits the lines in a deterministic
//! order.

use vstd::prelude::*;

pub mod chars;
pub mod flatten;
pub mod json_parser;
pub mod parser;
pub mod toml_parser;
pub mod value;
pub mod yaml_parser;

use crate::chars::str_eq;
use crate::flatten::FlatMap;
use crate::json_parser::{json_doc, JsonParser};
use crate::parser::{parse_outcome, ConfigError, ConfigParser};
use crate::toml_parser::{toml_doc, TomlParser};
use crate::yaml_parser::{yaml_doc, YamlParser};

verus! {

/// Parses `content` as the format named by `format` and flattens it:
/// `yaml`/`yml`, `toml` and `json` dispatch to their parsers, which
/// succeed exactly on valid text of their format and return the
/// flattening of the parsed tree; any other token is refused before
/// parsing is attempted.
pub fn parse_document(format: &str, content: &str) -> (r: Result<FlatMap, ConfigError>)
    ensures
        ({
            let f = format@;
            if f == "yaml"@ || f == "yml"@ {
                parse_outcome(yaml_doc(content@), r)
            } else if f == "toml"@ {
                parse_outcome(toml_doc(content@), r)
            } else if f == "json"@ {
                parse_outcome(json_doc(content@), r)
            } else {
                r matches Err(e) && e matches ConfigError::UnsupportedFormat(x) && x@ == format@
            }
        }),
{
    if str_eq(format, "yaml") || str_eq(format, "yml") {
        YamlParser::new().parse(content)
    } else if str_eq(format, "toml") {
        TomlParser::new().parse(content)
    } else if str_eq(format, "json") {
        JsonParser::new().parse(content)
    } else {
        Err(ConfigError::UnsupportedFormat(format.to_owned()))
    }
}

} // verus!
