use conf2env::flatten::flatten;
use conf2env::parse_document;
use conf2env::parser::{ConfigError, EnvGenerator, EnvGeneratorConfig};
use conf2env::value::ConfigValue;

#[test]
fn test_simple_document_lines() {
    let map = parse_document("json", r#"{"name":"test","port":8080,"debug":true}"#).unwrap();
    let generator = EnvGenerator::new(EnvGeneratorConfig::default());
    let lines = generator.generate(&map);
    assert_eq!(lines, vec!["DEBUG=true", "NAME=test", "PORT=8080"]);
}

#[test]
fn test_nested_document_lines() {
    let map = parse_document("json", r#"{"database":{"host":"localhost","port":5432}}"#).unwrap();
    let generator = EnvGenerator::new(EnvGeneratorConfig::default());
    let lines = generator.generate(&map);
    assert_eq!(lines, vec!["DATABASE_HOST=localhost", "DATABASE_PORT=5432"]);
}

#[test]
fn test_array_document_lines() {
    let map = parse_document(
        "json",
        r#"{"servers":[{"host":"s1","port":1},{"host":"s2","port":2}]}"#,
    )
    .unwrap();
    let generator = EnvGenerator::new(EnvGeneratorConfig::default());
    let lines = generator.generate(&map);
    assert_eq!(
        lines,
        vec![
            "SERVERS_0_HOST=s1",
            "SERVERS_0_PORT=1",
            "SERVERS_1_HOST=s2",
            "SERVERS_1_PORT=2"
        ]
    );
}

#[test]
fn test_null_value_line() {
    let map = parse_document("json", r#"{"x": null}"#).unwrap();
    let generator = EnvGenerator::new(EnvGeneratorConfig::default());
    let lines = generator.generate(&map);
    assert_eq!(lines, vec!["X="]);
}

#[test]
fn test_prefix_has_no_delimiter() {
    let map = parse_document("json", r#"{"database":{"host":"localhost"}}"#).unwrap();
    let generator = EnvGenerator::with_prefix("APP".to_string());
    let lines = generator.generate(&map);
    assert_eq!(lines, vec!["APPDATABASE_HOST=localhost"]);
}

#[test]
fn test_parse_document_accepts_yml_token() {
    let map = parse_document("yml", "name: test\n").unwrap();
    assert_eq!(map.get("name").unwrap(), "test");
}

#[test]
fn test_parse_document_unsupported_format() {
    let err = parse_document("xml", "<a/>").unwrap_err();
    match err {
        ConfigError::UnsupportedFormat(fmt) => assert_eq!(fmt, "xml"),
        other => panic!("unexpected error: {:?}", other),
    }
}

#[test]
fn test_flatten_counts_leaves() {
    let tree = ConfigValue::Mapping(vec![
        ("name".to_string(), ConfigValue::Text("test".to_string())),
        (
            "database".to_string(),
            ConfigValue::Mapping(vec![
                ("host".to_string(), ConfigValue::Text("localhost".to_string())),
                ("port".to_string(), ConfigValue::Int(5432)),
            ]),
        ),
        (
            "flags".to_string(),
            ConfigValue::Sequence(vec![ConfigValue::Bool(true), ConfigValue::Null]),
        ),
    ]);
    let map = flatten(&tree);
    assert_eq!(map.len(), 5);
    assert_eq!(map.get("name").unwrap(), "test");
    assert_eq!(map.get("database.host").unwrap(), "localhost");
    assert_eq!(map.get("database.port").unwrap(), "5432");
    assert_eq!(map.get("flags.0").unwrap(), "true");
    assert_eq!(map.get("flags.1").unwrap(), "");
}

#[test]
fn test_top_level_sequence_paths() {
    let tree = ConfigValue::Sequence(vec![
        ConfigValue::Int(10),
        ConfigValue::Text("x".to_string()),
    ]);
    let map = flatten(&tree);
    assert_eq!(map.len(), 2);
    assert_eq!(map.get("0").unwrap(), "10");
    assert_eq!(map.get("1").unwrap(), "x");
}

#[test]
fn test_scalar_document_has_empty_path() {
    let map = flatten(&ConfigValue::Int(42));
    assert_eq!(map.len(), 1);
    assert_eq!(map.get("").unwrap(), "42");
    let generator = EnvGenerator::new(EnvGeneratorConfig::default());
    assert_eq!(generator.generate(&map), vec!["=42"]);
}

#[test]
fn test_int_extremes_render_exactly() {
    let tree = ConfigValue::Mapping(vec![
        ("min".to_string(), ConfigValue::Int(i64::MIN)),
        ("max".to_string(), ConfigValue::Int(i64::MAX)),
        ("zero".to_string(), ConfigValue::Int(0)),
    ]);
    let map = flatten(&tree);
    assert_eq!(map.get("min").unwrap(), "-9223372036854775808");
    assert_eq!(map.get("max").unwrap(), "9223372036854775807");
    assert_eq!(map.get("zero").unwrap(), "0");
}
