use llm_json_formatter::stats::SchemaStats;
use llm_json_formatter::{
    entity_paths_given, parse_entity_paths, parse_json, schema_of_json, trim_text, FormatterError,
};

fn strings(items: &[&str]) -> Vec<String> {
    items.iter().map(|s| s.to_string()).collect()
}

#[test]
fn comma_separated_entities_are_trimmed() {
    assert_eq!(parse_entity_paths("users[*], orders[*]"), (strings(&["users[*]", "orders[*]"]), false));
    assert_eq!(parse_entity_paths(" a ,,b, "), (strings(&["a", "", "b", ""]), false));
    assert_eq!(parse_entity_paths(""), (strings(&[""]), false));
}

#[test]
fn json_array_of_entities() {
    assert_eq!(
        parse_entity_paths(r#"  ["users[*]","orders[*]"] "#),
        (strings(&["users[*]", "orders[*]"]), false)
    );
    assert_eq!(parse_entity_paths("[]"), (strings(&[]), false));
}

#[test]
fn bracketed_text_that_is_no_string_array_falls_back_to_commas() {
    assert_eq!(parse_entity_paths("[a,b]"), (strings(&["[a", "b]"]), true));
    assert_eq!(parse_entity_paths("[1, 2]"), (strings(&["[1", "2]"]), true));
}

#[test]
fn decision_on_a_given_parse_result() {
    let arr = parse_json(r#"["x","y"]"#).unwrap();
    assert_eq!(entity_paths_given(r#"["x","y"]"#, Some(&arr)), (strings(&["x", "y"]), false));
    let mixed = parse_json(r#"["x",1]"#).unwrap();
    assert_eq!(entity_paths_given(r#"["x",1]"#, Some(&mixed)), (strings(&["[\"x\"", "1]"]), true));
    assert_eq!(entity_paths_given("[p]", None), (strings(&["[p]"]), true));
    // Without brackets the parse result plays no part.
    assert_eq!(entity_paths_given("p,q", Some(&arr)), (strings(&["p", "q"]), false));
}

#[test]
fn trimming_matches_str_trim() {
    for s in ["", "  ", " a b ", "\u{3000}x\u{2009}", "\t\n y\r\u{85}", "z"] {
        assert_eq!(trim_text(s), s.trim());
    }
}

#[test]
fn schema_of_a_json_text() {
    let out = schema_of_json(r#"{"users":[{"id":1,"name":"Alice"}],"config":{"debug":true}}"#).unwrap();
    assert_eq!(
        out,
        "{\n  \"config\": {\n    \"debug\": boolean\n  }\n  \"users\": [\n    {\n      \"id\": number\n      \"name\": string\n    }\n  ]\n}"
    );
    assert!(matches!(schema_of_json("{"), Err(FormatterError::ParseError(_))));
}

#[test]
fn p90_is_a_recorded_length() {
    // Eleven numbers whose texts are 1 to 11 characters long, shuffled.
    let doc = parse_json("[333,1,55555,22,4444,1000000000,999999999,666666,7777777,88888888,12345678901]").unwrap();
    let stats = SchemaStats::analyze(&doc);
    // 11 * 9 / 10 = 9: the tenth shortest length.
    assert_eq!(stats.get_p90_length("[*]"), 10);
    assert_eq!(stats.get_p90_length(""), 78);
    assert_eq!(stats.get_p90_length("missing"), 0);
}
