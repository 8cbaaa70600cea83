use sc_ui_schema::bindings::{resolve_bindings_for_file, validate_binding_ref};
use sc_ui_schema::json::Json;
use sc_ui_schema::registry::FileRegistry;

fn s(text: &str) -> Json {
    Json::Str(text.to_string())
}

fn obj(members: Vec<(&str, Json)>) -> Json {
    Json::Object(members.into_iter().map(|(k, v)| (k.to_string(), v)).collect())
}

fn table(names: &[&str]) -> Json {
    obj(names.iter().map(|n| (*n, obj(vec![]))).collect())
}

fn registry_of(docs: Vec<Json>) -> FileRegistry {
    let mut registry = FileRegistry::new();
    for d in docs {
        registry.register_document(d);
    }
    registry
}

#[test]
fn register_then_get_gives_the_document_back() {
    let mut registry = FileRegistry::new();
    registry.register("a".to_string(), s("first"));
    registry.register("b".to_string(), s("other"));
    registry.register("a".to_string(), s("second"));
    assert_eq!(registry.files().len(), 2);
    assert_eq!(registry.files()[0].0, "a");
    match registry.get("a") {
        Some(Json::Str(v)) => assert_eq!(v, "second"),
        other => panic!("unexpected {other:?}"),
    }
    match registry.get("b") {
        Some(Json::Str(v)) => assert_eq!(v, "other"),
        other => panic!("unexpected {other:?}"),
    }
    assert!(registry.get("c").is_none());
}

#[test]
fn register_document_uses_the_id_member() {
    let mut registry = FileRegistry::new();
    registry.register_document(obj(vec![("id", s("menu"))]));
    registry.register_document(obj(vec![("bindings", table(&["x"]))]));
    registry.register_document(obj(vec![("id", Json::Number("5".to_string()))]));
    assert_eq!(registry.files().len(), 1);
    assert!(registry.get("menu").is_some());
}

#[test]
fn own_bindings_and_buttons_come_first() {
    let root = obj(vec![("bindings", table(&["b1", "b2"])), ("buttons", table(&["btn", "b1"]))]);
    let registry = FileRegistry::new();
    assert_eq!(resolve_bindings_for_file(&root, &registry, true), vec!["b1", "b2", "btn"]);
}

#[test]
fn copy_configs_are_followed_transitively_and_through_cycles() {
    let a = obj(vec![("id", s("a")), ("bindings", table(&["from_a"])), ("copy_configs", s("b"))]);
    let b = obj(vec![
        ("id", s("b")),
        ("bindings", table(&["from_b"])),
        ("copy_configs", Json::Array(vec![s("a"), s("c"), s("missing"), Json::Bool(true)])),
    ]);
    let c = obj(vec![("id", s("c")), ("buttons", table(&["from_c"]))]);
    let unrelated = obj(vec![("id", s("d")), ("bindings", table(&["from_d"]))]);
    let registry = registry_of(vec![a, b, c, unrelated]);
    let root = obj(vec![("copy_configs", Json::Array(vec![s("a")]))]);
    assert_eq!(resolve_bindings_for_file(&root, &registry, true), vec!["from_a", "from_b", "from_c"]);
}

#[test]
fn asset_id_list_siblings_are_followed_once() {
    let doc = |id: &str, list: &str, binding: &str, extra: Vec<(&'static str, Json)>| {
        let mut members = vec![
            ("id", s(id)),
            ("sc_file_source", s("AssetIdList")),
            ("sc_file_asset_id_list", s(list)),
            ("bindings", table(&[binding])),
        ];
        members.extend(extra);
        obj(members)
    };
    let sibling = doc("sib", "L", "from_sib", vec![("copy_configs", s("deep"))]);
    let other_list = doc("far", "M", "from_far", vec![]);
    let deep = doc("deep", "M", "from_deep", vec![]);
    let same_id = doc("root", "L", "from_registered_root", vec![]);
    let registry = registry_of(vec![sibling, other_list, deep, same_id]);
    let root = doc("root", "L", "own", vec![]);
    // the sibling's copy_configs are followed, but not the asset list of
    // what they reach; the file registered under the root's id is skipped
    assert_eq!(resolve_bindings_for_file(&root, &registry, true), vec!["own", "from_sib", "from_deep"]);
    assert_eq!(resolve_bindings_for_file(&root, &registry, false), vec!["own"]);
}

#[test]
fn other_toml_config_is_followed_with_asset_lists() {
    let target = obj(vec![
        ("id", s("t")),
        ("bindings", table(&["from_t"])),
        ("sc_file_source", s("AssetIdList")),
        ("sc_file_asset_id_list", s("L")),
    ]);
    let sibling = obj(vec![
        ("id", s("u")),
        ("bindings", table(&["from_u"])),
        ("sc_file_source", s("AssetIdList")),
        ("sc_file_asset_id_list", s("L")),
    ]);
    let registry = registry_of(vec![target, sibling]);
    let root = obj(vec![("sc_file_source", s("OtherTomlConfig")), ("sc_file", s("t"))]);
    assert_eq!(resolve_bindings_for_file(&root, &registry, false), vec!["from_t", "from_u"]);
    let wrong_source = obj(vec![("sc_file_source", s("ClientFile")), ("sc_file", s("t"))]);
    assert!(resolve_bindings_for_file(&wrong_source, &registry, true).is_empty());
}

#[test]
fn binding_ref_without_bindings_is_reported() {
    let root = obj(vec![]);
    let registry = FileRegistry::new();
    assert_eq!(
        validate_binding_ref(&s("x"), &root, &registry, "children[0].bindingId", 0),
        vec!["children[0].bindingId: bindingId 'x' references, but no 'bindings' section exists in root"]
    );
}

#[test]
fn binding_ref_not_found_lists_bindings_when_verbose() {
    let root = obj(vec![("bindings", table(&["a", "b"]))]);
    let registry = FileRegistry::new();
    assert_eq!(
        validate_binding_ref(&s("c"), &root, &registry, "p", 0),
        vec!["p: bindingId 'c' not found in 'bindings'"]
    );
    assert_eq!(
        validate_binding_ref(&s("c"), &root, &registry, "p", 1),
        vec!["p: bindingId 'c' not found in 'bindings' (available: [\"a\", \"b\"])"]
    );
    assert!(validate_binding_ref(&s("b"), &root, &registry, "p", 2).is_empty());
}

fn contains_all(outer: &[String], inner: &[String]) -> bool {
    inner.iter().all(|x| outer.contains(x))
}

#[test]
fn a_referenced_file_resolves_within_the_root() {
    let a = obj(vec![("id", s("a")), ("bindings", table(&["from_a"])), ("copy_configs", s("b"))]);
    let b = obj(vec![("id", s("b")), ("bindings", table(&["from_b"])), ("copy_configs", s("c"))]);
    let c = obj(vec![("id", s("c")), ("buttons", table(&["from_c"]))]);
    let registry = registry_of(vec![a, b, c]);
    let root = obj(vec![("bindings", table(&["own"])), ("copy_configs", s("a"))]);
    let whole = resolve_bindings_for_file(&root, &registry, true);
    let of_a = resolve_bindings_for_file(registry.get("a").unwrap(), &registry, true);
    assert_eq!(of_a, vec!["from_a", "from_b", "from_c"]);
    assert!(contains_all(&whole, &of_a));
    // the sc_file of an OtherTomlConfig root, resolved with asset id lists
    let target = obj(vec![
        ("id", s("t")),
        ("bindings", table(&["from_t"])),
        ("sc_file_source", s("AssetIdList")),
        ("sc_file_asset_id_list", s("L")),
    ]);
    let sibling = obj(vec![
        ("id", s("u")),
        ("bindings", table(&["from_u"])),
        ("sc_file_source", s("AssetIdList")),
        ("sc_file_asset_id_list", s("L")),
    ]);
    let registry = registry_of(vec![target, sibling]);
    let root = obj(vec![("sc_file_source", s("OtherTomlConfig")), ("sc_file", s("t"))]);
    let whole = resolve_bindings_for_file(&root, &registry, false);
    let of_t = resolve_bindings_for_file(registry.get("t").unwrap(), &registry, true);
    assert_eq!(of_t, vec!["from_t", "from_u"]);
    assert!(contains_all(&whole, &of_t));
}

#[test]
fn resolution_grows_with_registrations_and_asset_lists() {
    let sibling = obj(vec![
        ("id", s("sib")),
        ("sc_file_source", s("AssetIdList")),
        ("sc_file_asset_id_list", s("L")),
        ("bindings", table(&["from_sib"])),
    ]);
    let root = obj(vec![
        ("id", s("root")),
        ("sc_file_source", s("AssetIdList")),
        ("sc_file_asset_id_list", s("L")),
        ("bindings", table(&["own"])),
        ("copy_configs", s("later")),
    ]);
    let mut registry = registry_of(vec![sibling]);
    let without = resolve_bindings_for_file(&root, &registry, false);
    let with = resolve_bindings_for_file(&root, &registry, true);
    assert_eq!(without, vec!["own"]);
    assert_eq!(with, vec!["own", "from_sib"]);
    assert!(contains_all(&with, &without));
    registry.register("later".to_string(), obj(vec![("bindings", table(&["from_later"]))]));
    let after = resolve_bindings_for_file(&root, &registry, true);
    assert_eq!(after, vec!["own", "from_sib", "from_later"]);
    assert!(contains_all(&after, &with));
}

#[test]
fn the_list_holds_each_id_once_with_its_latest_document() {
    let mut registry = FileRegistry::new();
    registry.register("x".to_string(), s("1"));
    registry.register("y".to_string(), s("2"));
    registry.register("x".to_string(), s("3"));
    registry.register("z".to_string(), s("4"));
    let ids: Vec<&str> = registry.files().iter().map(|(id, _)| id.as_str()).collect();
    assert_eq!(ids, vec!["x", "y", "z"]);
    for (id, doc) in registry.files() {
        match (registry.get(id), doc) {
            (Some(Json::Str(found)), Json::Str(listed)) => assert_eq!(found, listed),
            other => panic!("unexpected {other:?}"),
        }
    }
    assert!(matches!(registry.get("x"), Some(Json::Str(v)) if v == "3"));
    assert!(registry.get("w").is_none());
}
