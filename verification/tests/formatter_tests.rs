use llm_json_formatter::{Config, LlmJsonFormatter, SortStrategy};

#[test]
fn test_smart_format_small_object() {
    let mut formatter = LlmJsonFormatter::new(Config::default());
    let input = r#"{"name":"Alice","age":30}"#;
    let result = formatter.format(input).unwrap();
    assert_eq!(result, r#"{"age":30,"name":"Alice"}"#);
}

#[test]
fn test_smart_format_nested_array() {
    let mut formatter = LlmJsonFormatter::new(Config {
        inline_limit: 30,
        entity_threshold: 2000,
        ..Default::default()
    });
    let input = r#"{"users":[{"id":1,"name":"Alice"},{"id":2,"name":"Bob"}]}"#;
    let result = formatter.format(input).unwrap();

    let expected = r#"{
  "users": [
    {"id":1,"name":"Alice"},
    {"id":2,"name":"Bob"}
  ]
}"#;
    assert_eq!(result, expected);
}

#[test]
fn test_forced_entities() {
    let mut entities = Vec::new();
    entities.push("users[*]".to_string());

    let mut formatter = LlmJsonFormatter::new(Config {
        inline_limit: 10,
        entities,
        ..Default::default()
    });

    let input = r#"{"users":[{"id":1,"name":"LongNameAlice"},{"id":2,"name":"LongNameBob"}]}"#;
    let result = formatter.format(input).unwrap();

    let expected = r#"{
  "users": [
    {"id":1,"name":"LongNameAlice"},
    {"id":2,"name":"LongNameBob"}
  ]
}"#;
    assert_eq!(result, expected);
}

#[test]
fn test_smart_sort() {
    let mut formatter = LlmJsonFormatter::new(Config {
        sort_strategy: SortStrategy::Smart,
        ..Default::default()
    });
    let input = r#"{"zzz":1,"name":"Alice","_internal":2,"id":100}"#;
    let result = formatter.format(input).unwrap();

    assert_eq!(result, r#"{"id":100,"name":"Alice","zzz":1,"_internal":2}"#);
}

#[test]
fn test_shortcut_preserves_key_order_alphabetic() {
    let mut formatter = LlmJsonFormatter::new(Config::default());
    let result = formatter.format(r#"{"z":1,"a":2,"m":3}"#).unwrap();
    assert_eq!(result, r#"{"a":2,"m":3,"z":1}"#);
}
