use conf2env::json_parser::JsonParser;
use conf2env::parser::{ConfigError, ConfigParser};

#[test]
fn test_parse_simple_json() {
    let parser = JsonParser::new();
    let json = r#"
{
  "name": "test",
  "port": 8080,
  "debug": true
}
"#;
    let result = parser.parse(json).unwrap();

    assert_eq!(result.get("name").unwrap(), "test");
    assert_eq!(result.get("port").unwrap(), "8080");
    assert_eq!(result.get("debug").unwrap(), "true");
}

#[test]
fn test_parse_nested_json() {
    let parser = JsonParser::new();
    let json = r#"
{
  "database": {
    "host": "localhost",
    "port": 5432,
    "credentials": {
      "username": "admin",
      "password": "secret"
    }
  }
}
"#;
    let result = parser.parse(json).unwrap();

    assert_eq!(result.get("database.host").unwrap(), "localhost");
    assert_eq!(result.get("database.port").unwrap(), "5432");
    assert_eq!(result.get("database.credentials.username").unwrap(), "admin");
    assert_eq!(result.get("database.credentials.password").unwrap(), "secret");
}

#[test]
fn test_parse_json_with_array() {
    let parser = JsonParser::new();
    let json = r#"
{
  "servers": [
    { "host": "server1.example.com", "port": 8001 },
    { "host": "server2.example.com", "port": 8002 }
  ]
}
"#;
    let result = parser.parse(json).unwrap();

    assert_eq!(result.get("servers.0.host").unwrap(), "server1.example.com");
    assert_eq!(result.get("servers.0.port").unwrap(), "8001");
    assert_eq!(result.get("servers.1.host").unwrap(), "server2.example.com");
    assert_eq!(result.get("servers.1.port").unwrap(), "8002");
}

#[test]
fn test_parse_json_null_value() {
    let parser = JsonParser::new();
    let result = parser.parse(r#"{"x": null}"#).unwrap();
    assert_eq!(result.len(), 1);
    assert_eq!(result.get("x").unwrap(), "");
}

#[test]
fn test_parse_json_negative_and_large_numbers() {
    let parser = JsonParser::new();
    let result = parser.parse(r#"{"a": -42, "b": 18446744073709551615}"#).unwrap();
    assert_eq!(result.get("a").unwrap(), "-42");
    assert_eq!(result.get("b").unwrap(), "18446744073709551615");
}

#[test]
fn test_parse_json_scalar_document() {
    let parser = JsonParser::new();
    let result = parser.parse("42").unwrap();
    assert_eq!(result.len(), 1);
    assert_eq!(result.get("").unwrap(), "42");
}

#[test]
fn test_parse_json_invalid() {
    let parser = JsonParser::new();
    let err = parser.parse("{ not json").unwrap_err();
    assert!(matches!(err, ConfigError::Parse(_)));
}

#[test]
fn test_json_parser_name() {
    assert_eq!(JsonParser::new().name(), "json");
}
