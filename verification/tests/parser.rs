use conf2env::flatten::FlatMap;
use conf2env::parser::{ConfigError, EnvGenerator, EnvGeneratorConfig};

#[test]
fn test_format_key_default() {
    let generator = EnvGenerator::new(EnvGeneratorConfig::default());
    assert_eq!(generator.format_key("database.host"), "DATABASE_HOST");
}

#[test]
fn test_format_key_with_prefix() {
    let generator = EnvGenerator::with_prefix("APP".to_string());
    assert_eq!(generator.format_key("database.host"), "APPDATABASE_HOST");
}

#[test]
fn test_format_key_custom_separator() {
    let generator = EnvGenerator::with_separator("__".to_string());
    assert_eq!(generator.format_key("database.host"), "DATABASE__HOST");
}

#[test]
fn test_generate_env() {
    let generator = EnvGenerator::with_prefix("APP".to_string());
    let mut config = FlatMap::new();
    config.insert("database.host".to_string(), "localhost".to_string());
    config.insert("database.port".to_string(), "5432".to_string());

    let env_lines = generator.generate(&config);
    assert_eq!(env_lines, vec!["APPDATABASE_HOST=localhost", "APPDATABASE_PORT=5432"]);
}

#[test]
fn test_format_key_no_uppercase() {
    let config = EnvGeneratorConfig {
        prefix: String::new(),
        separator: "_".to_string(),
        uppercase: false,
    };
    let generator = EnvGenerator::new(config);
    assert_eq!(generator.format_key("database.host"), "database_host");
}

#[test]
fn test_format_key_idempotent_on_formatted() {
    let generator = EnvGenerator::new(EnvGeneratorConfig::default());
    let once = generator.format_key("database.host");
    let twice = generator.format_key(&once);
    assert_eq!(twice, once);
}

#[test]
fn test_generate_sorted_by_original_path() {
    let generator = EnvGenerator::new(EnvGeneratorConfig::default());
    let mut config = FlatMap::new();
    config.insert("b".to_string(), "2".to_string());
    config.insert("a".to_string(), "1".to_string());
    config.insert("c.d".to_string(), "3".to_string());

    let env_lines = generator.generate(&config);
    assert_eq!(env_lines, vec!["A=1", "B=2", "C_D=3"]);
}

#[test]
fn test_generate_insertion_order_independent() {
    let generator = EnvGenerator::with_prefix("APP".to_string());

    let mut first = FlatMap::new();
    first.insert("database.host".to_string(), "localhost".to_string());
    first.insert("database.port".to_string(), "5432".to_string());
    first.insert("debug".to_string(), "true".to_string());

    let mut second = FlatMap::new();
    second.insert("debug".to_string(), "true".to_string());
    second.insert("database.port".to_string(), "5432".to_string());
    second.insert("database.host".to_string(), "localhost".to_string());

    assert_eq!(generator.generate(&first), generator.generate(&second));
}

#[test]
fn test_generate_empty_map() {
    let generator = EnvGenerator::new(EnvGeneratorConfig::default());
    let config = FlatMap::new();
    let env_lines = generator.generate(&config);
    assert!(env_lines.is_empty());
}

#[test]
fn test_insert_overwrites_same_path() {
    let mut config = FlatMap::new();
    config.insert("key".to_string(), "old".to_string());
    config.insert("key".to_string(), "new".to_string());
    assert_eq!(config.len(), 1);
    assert_eq!(config.get("key").unwrap(), "new");
}

#[test]
fn test_detect_format_explicit_wins() {
    let detected = conf2env::parser::detect_format(Some("json"), Some("toml")).unwrap();
    assert_eq!(detected, "toml");
}

#[test]
fn test_detect_format_from_extension() {
    assert_eq!(conf2env::parser::detect_format(Some("yml"), None).unwrap(), "yaml");
    assert_eq!(conf2env::parser::detect_format(Some("YAML"), None).unwrap(), "yaml");
    assert_eq!(conf2env::parser::detect_format(Some("toml"), None).unwrap(), "toml");
    assert_eq!(conf2env::parser::detect_format(Some("json"), None).unwrap(), "json");
}

#[test]
fn test_detect_format_missing_extension() {
    let err = conf2env::parser::detect_format(None, None).unwrap_err();
    assert!(matches!(err, ConfigError::MissingExtension));
}

#[test]
fn test_detect_format_unknown_extension() {
    let err = conf2env::parser::detect_format(Some("txt"), None).unwrap_err();
    match err {
        ConfigError::UnknownExtension(ext) => assert_eq!(ext, "txt"),
        other => panic!("unexpected error: {:?}", other),
    }
}
