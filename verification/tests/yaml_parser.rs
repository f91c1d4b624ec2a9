use conf2env::parser::ConfigParser;
use conf2env::yaml_parser::YamlParser;

#[test]
fn test_parse_simple_yaml() {
    let parser = YamlParser::new();
    let yaml = r#"
name: test
port: 8080
debug: true
"#;
    let result = parser.parse(yaml).unwrap();

    assert_eq!(result.get("name").unwrap(), "test");
    assert_eq!(result.get("port").unwrap(), "8080");
    assert_eq!(result.get("debug").unwrap(), "true");
}

#[test]
fn test_parse_nested_yaml() {
    let parser = YamlParser::new();
    let yaml = r#"
database:
  host: localhost
  port: 5432
  credentials:
    username: admin
    password: secret
"#;
    let result = parser.parse(yaml).unwrap();

    assert_eq!(result.get("database.host").unwrap(), "localhost");
    assert_eq!(result.get("database.port").unwrap(), "5432");
    assert_eq!(result.get("database.credentials.username").unwrap(), "admin");
    assert_eq!(result.get("database.credentials.password").unwrap(), "secret");
}

#[test]
fn test_parse_yaml_with_array() {
    let parser = YamlParser::new();
    let yaml = r#"
servers:
  - host: server1.example.com
    port: 8001
  - host: server2.example.com
    port: 8002
"#;
    let result = parser.parse(yaml).unwrap();

    assert_eq!(result.get("servers.0.host").unwrap(), "server1.example.com");
    assert_eq!(result.get("servers.0.port").unwrap(), "8001");
    assert_eq!(result.get("servers.1.host").unwrap(), "server2.example.com");
    assert_eq!(result.get("servers.1.port").unwrap(), "8002");
}

#[test]
fn test_parse_yaml_non_string_keys() {
    let parser = YamlParser::new();
    let yaml = "42: answer\ntrue: yes\n";
    let result = parser.parse(yaml).unwrap();
    assert_eq!(result.get("42").unwrap(), "answer");
    assert_eq!(result.get("true").unwrap(), "yes");
}

#[test]
fn test_yaml_parser_name() {
    assert_eq!(YamlParser::new().name(), "yaml");
}
