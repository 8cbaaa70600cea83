use sc_ui_schema::json::Json;
use sc_ui_schema::pattern::compile_pattern;
use sc_ui_schema::text::{
    debug_list, has_prefix, join_item_path, join_member_path, push_decimal, text_eq,
};

fn s(text: &str) -> Json {
    Json::Str(text.to_string())
}

fn obj(members: Vec<(&str, Json)>) -> Json {
    Json::Object(members.into_iter().map(|(k, v)| (k.to_string(), v)).collect())
}

#[test]
fn text_eq_compares_characters() {
    assert!(text_eq("abc", "abc"));
    assert!(!text_eq("abc", "abd"));
    assert!(!text_eq("abc", "ab"));
    assert!(text_eq("", ""));
    assert!(text_eq("привет", "привет"));
}

#[test]
fn has_prefix_checks_the_beginning() {
    assert!(has_prefix("#/definitions/bindingId", "#/definitions/"));
    assert!(!has_prefix("#/defs/x", "#/definitions/"));
    assert!(has_prefix("$schema", "$"));
    assert!(!has_prefix("", "$"));
    assert!(has_prefix("anything", ""));
}

#[test]
fn decimal_text_of_numbers() {
    for (n, text) in [(0usize, "0"), (7, "7"), (10, "10"), (1234, "1234"), (usize::MAX, "18446744073709551615")] {
        let mut out = String::from("x=");
        push_decimal(&mut out, n);
        assert_eq!(out, format!("x={text}"));
    }
}

#[test]
fn member_and_item_paths() {
    assert_eq!(join_member_path("", "bindings"), "bindings");
    assert_eq!(join_member_path("a.b", "c"), "a.b.c");
    assert_eq!(join_item_path("", 3), "[3]");
    assert_eq!(join_item_path("children", 12), "children[12]");
}

#[test]
fn debug_list_matches_std_debug() {
    let items = vec!["a".to_string(), "b\"q".to_string(), "ü\n".to_string()];
    assert_eq!(debug_list(&items), format!("{:?}", items));
    assert_eq!(debug_list(&items), "[\"a\", \"b\\\"q\", \"ü\\n\"]");
    assert_eq!(debug_list(&Vec::new()), "[]");
    assert_eq!(debug_list(&vec!["only".to_string()]), "[\"only\"]");
}

#[test]
fn get_member_finds_the_first_member() {
    let doc = obj(vec![("id", s("main")), ("n", Json::Number("3".to_string())), ("id", s("second"))]);
    match doc.get_member("id") {
        Some(Json::Str(v)) => assert_eq!(v, "main"),
        other => panic!("unexpected {other:?}"),
    }
    assert!(doc.get_member("missing").is_none());
    assert!(doc.get_text_member("n").is_none());
    assert_eq!(doc.get_text_member("id").map(|v| v.as_str()), Some("main"));
    assert!(s("id").get_member("id").is_none());
    assert!(Json::Array(vec![s("id")]).get_member("id").is_none());
}

#[test]
fn compile_pattern_refuses_invalid_regex() {
    assert!(compile_pattern("^[a-z_]+$").is_some());
    assert!(compile_pattern("(unclosed").is_none());
}
