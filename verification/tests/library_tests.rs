use llm_json_formatter::{
    generate_schema, get_base_type, is_map_like, key_weight, merge_objects, parse_json,
    type_signature, Config, FormatMode, FormatterError, JsonIndex, JsonValue, LlmJsonFormatter,
    MapKind, SortStrategy, ValueType,
};

fn members(v: &JsonValue) -> &Vec<(String, JsonValue)> {
    match v {
        JsonValue::Object(m) => m,
        _ => panic!("not an object"),
    }
}

fn format_with(mode: FormatMode, json: &str) -> String {
    let mut f = LlmJsonFormatter::new(Config { mode, ..Default::default() });
    f.format(json).unwrap()
}

const DOCS: [&str; 6] = [
    r#"{"b":1,"a":[true,false,null],"c":{"z":"x\"y\\z","y":-1.5e10}}"#,
    r#"[1,2.5,-3,"tab\tnew\nline\u0001","é中",{}, []]"#,
    r#""just a string""#,
    r#"{"users":[{"id":1,"name":"Alice"},{"id":2,"name":"Bob"}],"meta":{"count":2,"version":"1.0"}}"#,
    r#"12345678901234567890"#,
    r#"{"nested":{"deeper":{"deepest":[[[]]]}}}"#,
];

fn sorted_serde(json: &str) -> serde_json::Value {
    fn sort(v: serde_json::Value) -> serde_json::Value {
        match v {
            serde_json::Value::Object(m) => {
                let mut items: Vec<(String, serde_json::Value)> = m.into_iter().collect();
                items.sort_by(|a, b| a.0.cmp(&b.0));
                serde_json::Value::Object(items.into_iter().map(|(k, v)| (k, sort(v))).collect())
            }
            serde_json::Value::Array(a) => serde_json::Value::Array(a.into_iter().map(sort).collect()),
            other => other,
        }
    }
    sort(serde_json::from_str(json).unwrap())
}

#[test]
fn compact_mode_matches_serde_json() {
    for doc in DOCS.iter() {
        let expected = serde_json::to_string(&sorted_serde(doc)).unwrap();
        assert_eq!(format_with(FormatMode::Compact, doc), expected);
    }
}

#[test]
fn pretty_mode_matches_serde_json() {
    for doc in DOCS.iter() {
        let expected = serde_json::to_string_pretty(&sorted_serde(doc)).unwrap();
        assert_eq!(format_with(FormatMode::Pretty, doc), expected);
    }
}

#[test]
fn compact_escapes_control_characters() {
    let out = format_with(FormatMode::Compact, r#"["a\u001fb\b\f\r"]"#);
    assert_eq!(out, r#"["a\u001fb\b\f\r"]"#);
}

#[test]
fn parse_error_is_reported() {
    let mut f = LlmJsonFormatter::new(Config::default());
    assert!(matches!(f.format("{invalid json}"), Err(FormatterError::ParseError(_))));
    assert!(matches!(f.generate_prompt("[1,"), Err(FormatterError::ParseError(_))));
    assert!(matches!(f.get_metadata("nope"), Err(FormatterError::ParseError(_))));
    assert!(matches!(JsonIndex::build("{"), Err(FormatterError::ParseError(_))));
    assert!(matches!(parse_json(""), Err(FormatterError::ParseError(_))));
}

#[test]
fn smart_preview_inside_a_character_is_refused() {
    let text = "é".repeat(40);
    let json = format!(r#"{{"a":"{}"}}"#, text);
    let mut f = LlmJsonFormatter::new(Config::default());
    assert!(matches!(f.format(&json), Err(FormatterError::CharBoundary)));
    assert!(matches!(f.generate_prompt(&json), Err(FormatterError::CharBoundary)));
    // Compact mode takes no previews.
    let mut c = LlmJsonFormatter::new(Config { mode: FormatMode::Compact, ..Default::default() });
    assert_eq!(c.format(&json).unwrap(), json);
}

#[test]
fn only_the_first_three_values_of_a_path_are_previewed() {
    // The fourth item would be cut inside `é`, but it is never previewed.
    let json = format!(r#"["a","a","a","{}é"]"#, "x".repeat(48));
    let mut f = LlmJsonFormatter::new(Config::default());
    let out = f.format(&json).unwrap();
    assert_eq!(out, json);
    assert!(f.generate_prompt(&json).is_ok());
    // As the third item it is previewed, and refused.
    let json = format!(r#"["a","a","{}é"]"#, "x".repeat(48));
    assert!(matches!(f.format(&json), Err(FormatterError::CharBoundary)));
}

#[test]
fn smart_mode_keeps_fitting_values_on_one_line() {
    let out = format_with(FormatMode::Smart, r#"{"z":1,"a":2,"m":3}"#);
    assert_eq!(out, r#"{"a":2,"m":3,"z":1}"#);
}

#[test]
fn smart_mode_expands_long_structure() {
    let mut f = LlmJsonFormatter::new(Config { inline_limit: 10, array_item_inline_limit: 10, entity_threshold: 0, ..Default::default() });
    let out = f.format(r#"{"list":[[1,2,3,4,5,6],[7]],"x":"y"}"#).unwrap();
    let expected = "{\n  \"list\": [\n    [\n      1,\n      2,\n      3,\n      4,\n      5,\n      6\n    ],\n    [7]\n  ],\n  \"x\": \"y\"\n}";
    assert_eq!(out, expected);
}

#[test]
fn smart_sort_weights() {
    assert_eq!(key_weight("id"), 100);
    assert_eq!(key_weight("name"), 100);
    assert_eq!(key_weight("zzz"), 0);
    assert_eq!(key_weight("_internal"), -50);
    assert_eq!(key_weight("debug_internal"), -80);
    assert_eq!(key_weight("test"), -30);
    assert_eq!(LlmJsonFormatter::calculate_weight("value"), 100);
}

#[test]
fn smart_sort_orders_by_weight_then_name() {
    let mut f = LlmJsonFormatter::new(Config {
        mode: FormatMode::Compact,
        sort_strategy: SortStrategy::Smart,
        ..Default::default()
    });
    let out = f.format(r#"{"b_test":1,"a":2,"status":3,"_x":4,"id":5}"#).unwrap();
    assert_eq!(out, r#"{"id":5,"status":3,"a":2,"b_test":1,"_x":4}"#);
}

#[test]
fn type_signature_of_values() {
    let v = parse_json(r#"{"b":[1,2],"a":{"x":null,"y":"s"},"c":[]}"#).unwrap();
    assert_eq!(type_signature(&v), "{a:{x:null,y:string},b:[number],c:[]}");
    assert_eq!(type_signature(&parse_json("true").unwrap()), "boolean");
    assert_eq!(type_signature(&parse_json("{}").unwrap()), "{}");
}

#[test]
fn base_types() {
    assert_eq!(get_base_type(&parse_json("null").unwrap()), "null");
    assert_eq!(get_base_type(&parse_json("1").unwrap()), "number");
    assert_eq!(get_base_type(&parse_json("\"s\"").unwrap()), "string");
    assert_eq!(get_base_type(&parse_json("[]").unwrap()), "array");
    assert_eq!(get_base_type(&parse_json("{}").unwrap()), "object");
    assert_eq!(get_base_type(&parse_json("false").unwrap()), "boolean");
}

#[test]
fn map_like_objects() {
    let v = parse_json(r#"{"a":{"x":1},"b":{"y":2}}"#).unwrap();
    assert_eq!(is_map_like(members(&v)), Some(MapKind::ObjectMerged));
    let v = parse_json(r#"{"a":1,"b":2}"#).unwrap();
    assert_eq!(is_map_like(members(&v)), Some(MapKind::Primitive("number")));
    let v = parse_json(r#"{"a":1,"b":"x"}"#).unwrap();
    assert_eq!(is_map_like(members(&v)), None);
    let v = parse_json(r#"{"a":1}"#).unwrap();
    assert_eq!(is_map_like(members(&v)), None);
}

#[test]
fn merging_keeps_first_values() {
    let a = parse_json(r#"{"x":1,"y":2}"#).unwrap();
    let b = parse_json(r#"{"y":3,"z":4}"#).unwrap();
    let merged = merge_objects(&vec![members(&a), members(&b)]);
    let keys: Vec<&str> = merged.iter().map(|(k, _)| k.as_str()).collect();
    assert_eq!(keys, vec!["x", "y", "z"]);
    assert_eq!(merged[1].1, JsonValue::Number("2".to_string()));
    assert_eq!(merged[2].1, JsonValue::Number("4".to_string()));
}

#[test]
fn schema_of_readme_example() {
    let v = parse_json(r#"{"users":[{"id":1,"name":"Alice"}],"config":{"debug":true}}"#).unwrap();
    let expected = "{\n  \"config\": {\n    \"debug\": boolean\n  }\n  \"users\": [\n    {\n      \"id\": number\n      \"name\": string\n    }\n  ]\n}";
    assert_eq!(generate_schema(&v, 0), expected);
}

#[test]
fn schema_of_maps() {
    let v = parse_json(r#"{"en":"Hello","zh":"你好","ja":"こんにちは"}"#).unwrap();
    assert_eq!(generate_schema(&v, 0), "map[string]string");
    let v = parse_json(r#"{"u1":{"name":"Alice"},"u2":{"age":30}}"#).unwrap();
    assert_eq!(
        generate_schema(&v, 0),
        "map[string]{\n    \"age\": number\n    \"name\": string\n  }"
    );
    let v = parse_json(r#"{"a":[1],"b":["x"]}"#).unwrap();
    assert_eq!(generate_schema(&v, 0), "map[string]array");
    assert_eq!(generate_schema(&parse_json("[[1]]").unwrap(), 0), "[[number]]");
}

#[test]
fn index_search_and_paths() {
    let json = r#"{"users":[{"id":1,"name":"Alice"},{"id":2,"name":"Bob"}],"meta":{"count":2}}"#;
    let index = JsonIndex::build(json).unwrap();
    let info = index.search("users[0].name").unwrap();
    assert_eq!(info.value_type, ValueType::String);
    assert_eq!(info.preview, "\"Alice\"");
    assert!(index.search("users[2]").is_none());
    assert!(index.search("").is_none());
    let paths: Vec<&str> = index.list_paths().into_iter().map(|s| s.as_str()).collect();
    assert_eq!(
        paths,
        vec![
            "meta",
            "meta.count",
            "users",
            "users[0]",
            "users[0].id",
            "users[0].name",
            "users[1]",
            "users[1].id",
            "users[1].name"
        ]
    );
}

#[test]
fn index_preview_is_cut_at_100_characters() {
    let long = "x".repeat(150);
    let json = format!(r#"{{"a":"{}"}}"#, long);
    let index = JsonIndex::build(&json).unwrap();
    let info = index.search("a").unwrap();
    assert_eq!(info.preview, format!("\"{}...", "x".repeat(99)));
    // Multi-byte characters count as one each, and never cause an error.
    let json = format!(r#"{{"b":"{}"}}"#, "é".repeat(120));
    let index = JsonIndex::build(&json).unwrap();
    assert_eq!(index.search("b").unwrap().preview, format!("\"{}...", "é".repeat(99)));
    let short = format!(r#"{{"c":"{}"}}"#, "é".repeat(98));
    let index = JsonIndex::build(&short).unwrap();
    assert_eq!(index.search("c").unwrap().preview, format!("\"{}\"", "é".repeat(98)));
}

#[test]
fn index_later_path_replaces_earlier() {
    let index = JsonIndex::build(r#"{"a.b":1,"a":{"b":"two"}}"#).unwrap();
    assert_eq!(index.search("a.b").unwrap().value_type, ValueType::String);
    let empty = JsonIndex::default();
    assert!(empty.list_paths().is_empty());
}

#[test]
fn value_types_from_values() {
    assert_eq!(ValueType::from(&parse_json("[]").unwrap()), ValueType::Array);
    assert_eq!(ValueType::from(&parse_json("{}").unwrap()), ValueType::Object);
    assert_eq!(ValueType::from(&parse_json("2").unwrap()), ValueType::Number);
    assert_eq!(ValueType::from(&parse_json("null").unwrap()), ValueType::Null);
    assert_eq!(ValueType::from(&parse_json("true").unwrap()), ValueType::Boolean);
}

#[test]
fn metadata_counts() {
    let f = LlmJsonFormatter::new(Config::default());
    let m = f.get_metadata(r#"{"a":[1,[2,3,4]],"b":{"c":{}}}"#).unwrap();
    assert_eq!(m.byte_size, 30);
    assert_eq!(m.depth, 3);
    assert_eq!(m.array_count, 2);
    assert_eq!(m.max_array_len, 3);
    assert_eq!(m.object_count, 3);
    assert_eq!(m.total_keys, 3);
    let scalar = f.get_metadata("7").unwrap();
    assert_eq!(scalar.depth, 0);
    assert_eq!(scalar.byte_size, 1);
}

#[test]
fn analyze_parsed_value() {
    let f = LlmJsonFormatter::new(Config::default());
    let v = parse_json(r#"[{"a":1},{"b":2,"c":3}]"#).unwrap();
    let m = f.analyze(&v);
    assert_eq!(m.object_count, 2);
    assert_eq!(m.total_keys, 3);
    assert_eq!(m.depth, 2);
}

#[test]
fn prompt_map_of_arrays_uses_wildcard_paths() {
    // Both members are arrays, so the root reads as a map and its members
    // share the pattern `[*]`.
    let mut f = LlmJsonFormatter::new(Config::default());
    let prompt = f.generate_prompt(r#"{"users":[{"id":1}],"n":[1]}"#).unwrap();
    assert!(prompt.contains("Path: [*][*]\nSamples:\n  - {\"id\":1}\n  - 1\n\n"));
}

#[test]
fn test_prompt_uses_wildcard_for_object_map_paths() {
    let mut f = LlmJsonFormatter::new(Config::default());
    let prompt = f.generate_prompt(r#"{"by_id":{"u1":{"name":"Alice"},"u2":{"age":30}}}"#).unwrap();
    assert!(prompt.contains("Path: by_id[*]"));
    assert!(prompt.contains("  - {\"name\":\"Alice\"}\n"));
    assert!(prompt.starts_with("Analyze the JSON schema below"));
    assert!(prompt.ends_with("If no entities found, output: []\n"));
}

#[test]
fn prompt_lists_array_items() {
    let mut f = LlmJsonFormatter::new(Config::default());
    let prompt = f.generate_prompt(r#"{"users":[{"id":1},{"id":2},{"id":3},{"id":4}],"n":1}"#).unwrap();
    let expected_block = "Path: users[*]\nSamples:\n  - {\"id\":1}\n  - {\"id\":2}\n  - {\"id\":3}\n\n";
    assert!(prompt.contains(expected_block));
    assert!(!prompt.contains("Path: n[*]"));
}

#[test]
fn default_config_values() {
    let c = Config::default();
    assert_eq!(c.mode, FormatMode::Smart);
    assert_eq!(c.sort_strategy, SortStrategy::Alphabetic);
    assert_eq!(c.indent, 2);
    assert_eq!(c.inline_limit, 80);
    assert_eq!(c.array_item_inline_limit, 2048);
    assert_eq!(c.entity_threshold, 2000);
    assert!(c.entities.is_empty());
}

#[test]
fn auto_entities_follow_the_threshold() {
    // With the threshold at 0 no pattern is an automatic entity, so items
    // longer than the inline limit are expanded.
    let json = r#"{"items":[{"a":[1],"b":2},{"a":[3],"b":"xy"}]}"#;
    let mut f = LlmJsonFormatter::new(Config { inline_limit: 12, entity_threshold: 0, ..Default::default() });
    let out = f.format(json).unwrap();
    assert_eq!(out, "{\n  \"items\": [\n    {\n      \"a\": [1],\n      \"b\": 2\n    },\n    {\n      \"a\": [3],\n      \"b\": \"xy\"\n    }\n  ]\n}");
    // With the default threshold they are entities and stay on one line.
    let mut g = LlmJsonFormatter::new(Config { inline_limit: 12, ..Default::default() });
    let out = g.format(json).unwrap();
    assert_eq!(out, "{\n  \"items\": [\n    {\"a\":[1],\"b\":2},\n    {\"a\":[3],\"b\":\"xy\"}\n  ]\n}");
}

/// The text with the whitespace between JSON tokens taken out.
fn minified(text: &str) -> String {
    let mut out = String::new();
    let mut in_string = false;
    let mut escaped = false;
    for c in text.chars() {
        if in_string {
            out.push(c);
            if escaped {
                escaped = false;
            } else if c == '\\' {
                escaped = true;
            } else if c == '"' {
                in_string = false;
            }
        } else if c == '"' {
            out.push(c);
            in_string = true;
        } else if !matches!(c, ' ' | '\t' | '\n' | '\r') {
            out.push(c);
        }
    }
    out
}

#[test]
fn smart_and_pretty_only_add_whitespace() {
    for doc in DOCS.iter() {
        let compact = format_with(FormatMode::Compact, doc);
        let pretty = format_with(FormatMode::Pretty, doc);
        assert_eq!(minified(&pretty), compact);
        for limit in [0usize, 5, 20, 80] {
            let mut f = LlmJsonFormatter::new(Config {
                inline_limit: limit,
                array_item_inline_limit: limit,
                ..Default::default()
            });
            let smart = f.format(doc).unwrap();
            assert_eq!(minified(&smart), compact);
        }
    }
}

#[test]
fn smart_escapes_expanded_keys() {
    let mut f = LlmJsonFormatter::new(Config {
        inline_limit: 0,
        array_item_inline_limit: 0,
        ..Default::default()
    });
    let doc = r#"{"a\"b":[1],"c\\d\ne":2}"#;
    let out = f.format(doc).unwrap();
    assert_eq!(out, "{\n  \"a\\\"b\": [\n    1\n  ],\n  \"c\\\\d\\ne\": 2\n}");
    assert_eq!(minified(&out), format_with(FormatMode::Compact, doc));
    assert_eq!(serde_json::from_str::<serde_json::Value>(&out).unwrap(), sorted_serde(doc));
}

#[test]
fn simple_maps_outside_entity_paths_use_the_inline_limit() {
    let mut f = LlmJsonFormatter::new(Config { inline_limit: 10, ..Default::default() });
    let out = f.format(r#"{"a":1,"b":2,"c":3}"#).unwrap();
    assert_eq!(out, "{\n  \"a\": 1,\n  \"b\": 2,\n  \"c\": 3\n}");
}

#[test]
fn sorting_twice_is_sorting_once() {
    for strategy in [SortStrategy::Alphabetic, SortStrategy::Smart] {
        for doc in DOCS.iter() {
            let mut f = LlmJsonFormatter::new(Config {
                mode: FormatMode::Compact,
                sort_strategy: strategy,
                ..Default::default()
            });
            let once = f.format(doc).unwrap();
            let twice = f.format(&once).unwrap();
            assert_eq!(once, twice);
        }
    }
}

#[test]
fn compact_text_is_one_line() {
    let out = format_with(FormatMode::Compact, r#"{"text":"line one\nline two"}"#);
    assert!(!out.contains('\n'));
    assert_eq!(out, r#"{"text":"line one\nline two"}"#);
}

#[test]
fn schema_is_a_map_exactly_for_one_kind() {
    let one_kind = parse_json(r#"{"a":[1],"b":["x","y"]}"#).unwrap();
    assert_eq!(generate_schema(&one_kind, 0), "map[string]array");
    let mixed = parse_json(r#"{"a":1,"b":"x"}"#).unwrap();
    assert_eq!(generate_schema(&mixed, 0), "{\n  \"a\": number\n  \"b\": string\n}");
    let single = parse_json(r#"{"a":1}"#).unwrap();
    assert_eq!(generate_schema(&single, 0), "{\n  \"a\": number\n}");
}

#[test]
fn formatting_a_parsed_value_matches_formatting_its_text() {
    for mode in [FormatMode::Smart, FormatMode::Compact, FormatMode::Pretty] {
        for doc in DOCS.iter() {
            let mut by_text = LlmJsonFormatter::new(Config { mode, inline_limit: 20, ..Default::default() });
            let mut by_value = LlmJsonFormatter::new(Config { mode, inline_limit: 20, ..Default::default() });
            let value = parse_json(doc).unwrap();
            assert_eq!(by_value.format_value(&value).unwrap(), by_text.format(doc).unwrap());
        }
    }
    let mut f = LlmJsonFormatter::new(Config { mode: FormatMode::Compact, ..Default::default() });
    let value = parse_json(r#"{"b":[1,{"d":2,"c":3}],"a":null}"#).unwrap();
    assert_eq!(f.format_value(&value).unwrap(), r#"{"a":null,"b":[1,{"c":3,"d":2}]}"#);
}

#[test]
fn prompt_of_a_parsed_value_matches_prompt_of_its_text() {
    let text = r#"{"users":[{"id":1,"name":"Alice"},{"id":2,"name":"Bob"}]}"#;
    let mut f = LlmJsonFormatter::new(Config::default());
    let value = parse_json(text).unwrap();
    let by_value = f.prompt_for_value(&value).unwrap();
    assert_eq!(by_value, f.generate_prompt(text).unwrap());
    assert!(by_value.contains("Path: users[*]\nSamples:\n  - {\"id\":1,\"name\":\"Alice\"}\n  - {\"id\":2,\"name\":\"Bob\"}\n\n"));
}

#[test]
fn a_cloned_index_answers_alike() {
    let index = JsonIndex::build(r#"{"users":[{"id":1,"name":"Alice"}],"meta":{"count":2}}"#).unwrap();
    let copy = index.clone();
    assert_eq!(copy.list_paths(), index.list_paths());
    let info = copy.search("users[0].name").unwrap();
    assert_eq!(info.value_type, ValueType::String);
    assert_eq!(info.preview, "\"Alice\"");
}

#[test]
fn a_cloned_value_is_equal() {
    for doc in DOCS.iter() {
        let v = parse_json(doc).unwrap();
        assert_eq!(v.clone(), v);
    }
}

#[test]
fn signature_ignores_member_order() {
    let a = parse_json(r#"{"b":1,"a":"x","c":[{"y":null,"x":true}]}"#).unwrap();
    let b = parse_json(r#"{"c":[{"x":false,"y":null}],"a":"z","b":2}"#).unwrap();
    assert_eq!(type_signature(&a), type_signature(&b));
    assert_eq!(type_signature(&a), "{a:string,b:number,c:[{x:boolean,y:null}]}");
}
