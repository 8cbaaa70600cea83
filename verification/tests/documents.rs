use sc_ui_schema::document::{
    add_schema_reference, json_copy_text, parse_json_document, parse_toml_document, DocumentError,
};
use sc_ui_schema::json::Json;
use sc_ui_schema::registry::FileRegistry;

#[test]
fn toml_document_becomes_a_tree() {
    let doc = parse_toml_document(b"id = \"menu\"\ncount = 3\nratio = 0.5\n[bindings]\nplay = {}\n").unwrap();
    let tree = doc.tree();
    assert_eq!(tree.get_text_member("id").map(|s| s.as_str()), Some("menu"));
    match tree.get_member("count") {
        Some(Json::Number(n)) => assert_eq!(n, "3"),
        other => panic!("unexpected {other:?}"),
    }
    match tree.get_member("ratio") {
        Some(Json::Number(n)) => assert_eq!(n, "0.5"),
        other => panic!("unexpected {other:?}"),
    }
    match tree.get_member("bindings") {
        Some(Json::Object(ms)) => assert_eq!(ms[0].0, "play"),
        other => panic!("unexpected {other:?}"),
    }
}

#[test]
fn bad_toml_is_refused() {
    assert!(matches!(parse_toml_document(b"id = = 1"), Err(DocumentError::Toml(_))));
}

#[test]
fn json_schema_becomes_a_tree() {
    let doc = parse_json_document(br#"{"definitions": {"bindingId": {"type": "string"}}, "items": [1, true, null]}"#).unwrap();
    match doc.tree().get_member("items") {
        Some(Json::Array(items)) => {
            assert!(matches!(items[0], Json::Number(_)));
            assert!(matches!(items[1], Json::Bool(true)));
            assert!(matches!(items[2], Json::Null));
        }
        other => panic!("unexpected {other:?}"),
    }
    assert!(matches!(parse_json_document(b"{"), Err(DocumentError::Json(_))));
}

#[test]
fn schema_reference_is_added_and_written() {
    let mut doc = parse_toml_document(b"id = \"a\"\n").unwrap();
    add_schema_reference(&mut doc, "src/ui.schema.json");
    assert_eq!(doc.tree().get_text_member("$schema").map(|s| s.as_str()), Some("src/ui.schema.json"));
    assert_eq!(doc.tree().get_text_member("id").map(|s| s.as_str()), Some("a"));
    assert_eq!(
        json_copy_text(&doc).unwrap(),
        "{\n  \"$schema\": \"src/ui.schema.json\",\n  \"id\": \"a\"\n}\n"
    );
    add_schema_reference(&mut doc, "other.json");
    match doc.tree() {
        Json::Object(ms) => assert_eq!(ms.len(), 2),
        other => panic!("unexpected {other:?}"),
    }
}

#[test]
fn registry_loads_toml_files() {
    let mut registry = FileRegistry::new();
    registry.register_from_toml(b"id = \"base\"\n[bindings]\nx = {}\n").unwrap();
    registry.register_from_toml(b"name = \"no id\"\n").unwrap();
    assert!(matches!(registry.register_from_toml(b"[broken"), Err(DocumentError::Toml(_))));
    assert_eq!(registry.files().len(), 1);
    assert!(registry.get("base").is_some());
}

#[test]
fn a_toml_document_is_a_table() {
    for bytes in [&b""[..], &b"a = 1"[..], &b"[t]\nx = \"y\"\n"[..]] {
        let doc = parse_toml_document(bytes).unwrap();
        assert!(matches!(doc.tree(), Json::Object(_)));
    }
}
