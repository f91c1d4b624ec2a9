use conf2env::parser::{ConfigError, ConfigParser};
use conf2env::toml_parser::TomlParser;

#[test]
fn test_parse_simple_toml() {
    let parser = TomlParser::new();
    let toml = r#"
name = "test"
port = 8080
debug = true
"#;
    let result = parser.parse(toml).unwrap();

    assert_eq!(result.get("name").unwrap(), "test");
    assert_eq!(result.get("port").unwrap(), "8080");
    assert_eq!(result.get("debug").unwrap(), "true");
}

#[test]
fn test_parse_nested_toml() {
    let parser = TomlParser::new();
    let toml = r#"
[database]
host = "localhost"
port = 5432

[database.credentials]
username = "admin"
password = "secret"
"#;
    let result = parser.parse(toml).unwrap();

    assert_eq!(result.get("database.host").unwrap(), "localhost");
    assert_eq!(result.get("database.port").unwrap(), "5432");
    assert_eq!(
        result.get("database.credentials.username").unwrap(),
        "admin"
    );
    assert_eq!(
        result.get("database.credentials.password").unwrap(),
        "secret"
    );
}

#[test]
fn test_parse_toml_with_array() {
    let parser = TomlParser::new();
    let toml = r#"
servers = [
    { host = "server1.example.com", port = 8001 },
    { host = "server2.example.com", port = 8002 }
]
"#;
    let result = parser.parse(toml).unwrap();

    assert_eq!(result.get("servers.0.host").unwrap(), "server1.example.com");
    assert_eq!(result.get("servers.0.port").unwrap(), "8001");
    assert_eq!(result.get("servers.1.host").unwrap(), "server2.example.com");
    assert_eq!(result.get("servers.1.port").unwrap(), "8002");
}

#[test]
fn test_parse_toml_negative_integer() {
    let parser = TomlParser::new();
    let result = parser.parse("offset = -42\n").unwrap();
    assert_eq!(result.get("offset").unwrap(), "-42");
}

#[test]
fn test_parse_toml_invalid() {
    let parser = TomlParser::new();
    let err = parser.parse("= broken").unwrap_err();
    assert!(matches!(err, ConfigError::Parse(_)));
}

#[test]
fn test_toml_parser_name() {
    assert_eq!(TomlParser::new().name(), "toml");
}
