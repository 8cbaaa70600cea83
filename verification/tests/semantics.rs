use sc_ui_schema::json::Json;
use sc_ui_schema::registry::FileRegistry;
use sc_ui_schema::walk::{register_semantic_validators, validate_semantics, walk_schema_and_validate};

fn s(text: &str) -> Json {
    Json::Str(text.to_string())
}

fn obj(members: Vec<(&str, Json)>) -> Json {
    Json::Object(members.into_iter().map(|(k, v)| (k.to_string(), v)).collect())
}

fn arr(items: Vec<Json>) -> Json {
    Json::Array(items)
}

fn reference(name: &str) -> Json {
    obj(vec![("$ref", s(&format!("#/definitions/{name}")))])
}

fn table(names: &[&str]) -> Json {
    obj(names.iter().map(|n| (*n, obj(vec![]))).collect())
}

fn binding_schema(properties: Vec<(&str, Json)>, extra: Vec<(&str, Json)>) -> Json {
    let mut members = vec![
        ("definitions", obj(vec![("bindingId", obj(vec![("type", s("string"))]))])),
        ("properties", obj(properties)),
    ];
    members.extend(extra);
    obj(members)
}

fn check(root: &Json, schema: &Json) -> Vec<String> {
    validate_semantics(root, &FileRegistry::new(), schema, 0).unwrap()
}

#[test]
fn registered_validators() {
    let validators = register_semantic_validators();
    assert_eq!(validators.len(), 1);
    assert_eq!(validators[0].0, "#/definitions/bindingId");
}

#[test]
fn property_reference_is_checked() {
    let schema = binding_schema(vec![("target", reference("bindingId"))], vec![]);
    let root = obj(vec![("bindings", table(&["ok"])), ("target", s("missing"))]);
    assert_eq!(check(&root, &schema), vec!["target: bindingId 'missing' not found in 'bindings'"]);
    let root = obj(vec![("bindings", table(&["ok"])), ("target", s("ok"))]);
    assert!(check(&root, &schema).is_empty());
    // a reference that is no string is not checked
    let root = obj(vec![("target", Json::Number("1".to_string()))]);
    assert!(check(&root, &schema).is_empty());
}

#[test]
fn array_items_carry_their_index() {
    let item = obj(vec![("properties", obj(vec![("bindingId", reference("bindingId"))]))]);
    let schema = binding_schema(vec![("children", obj(vec![("items", item)]))], vec![]);
    let root = obj(vec![
        ("bindings", table(&["a"])),
        (
            "children",
            arr(vec![obj(vec![("bindingId", s("a"))]), obj(vec![("bindingId", s("b"))])]),
        ),
    ]);
    assert_eq!(check(&root, &schema), vec!["children[1].bindingId: bindingId 'b' not found in 'bindings'"]);
}

#[test]
fn object_items_are_walked_as_item_zero() {
    let item = obj(vec![("properties", obj(vec![("id", reference("bindingId"))]))]);
    let schema = binding_schema(vec![("single", obj(vec![("items", item)]))], vec![]);
    let root = obj(vec![("bindings", table(&["a"])), ("single", obj(vec![("id", s("zz"))]))]);
    assert_eq!(check(&root, &schema), vec!["single[0].id: bindingId 'zz' not found in 'bindings'"]);
}

#[test]
fn additional_properties_skip_dollar_names() {
    let schema = binding_schema(
        vec![("map", obj(vec![("additionalProperties", reference("bindingId"))]))],
        vec![],
    );
    let root = obj(vec![
        ("bindings", table(&["a"])),
        ("map", obj(vec![("$meta", s("nope")), ("k1", s("a")), ("k2", s("b"))])),
    ]);
    assert_eq!(check(&root, &schema), vec!["map.k2: bindingId 'b' not found in 'bindings'"]);
}

#[test]
fn pattern_properties_use_the_regex() {
    let schema = binding_schema(
        vec![(
            "map",
            obj(vec![(
                "patternProperties",
                obj(vec![("^ref_", reference("bindingId")), ("(bad", reference("bindingId"))]),
            )]),
        )],
        vec![],
    );
    let root = obj(vec![
        ("bindings", table(&["a"])),
        ("map", obj(vec![("other", s("x")), ("ref_1", s("y")), ("ref_2", s("a"))])),
    ]);
    assert_eq!(check(&root, &schema), vec!["map.ref_1: bindingId 'y' not found in 'bindings'"]);
}

#[test]
fn all_of_follows_the_first_present_property() {
    let branch = obj(vec![("properties", obj(vec![("missing", obj(vec![])), ("name", obj(vec![]))])), ("$ref", s("#/definitions/bindingId"))]);
    let schema = binding_schema(vec![("entry", obj(vec![("allOf", arr(vec![branch]))]))], vec![]);
    let root = obj(vec![
        ("bindings", table(&["a"])),
        ("entry", obj(vec![("name", s("q"))])),
    ]);
    // the branch is walked with the member `name`, at the entry's own path
    assert_eq!(check(&root, &schema), vec!["entry: bindingId 'q' not found in 'bindings'"]);
}

#[test]
fn one_of_skips_string_branches_for_objects() {
    let string_branch = obj(vec![("type", s("string")), ("properties", obj(vec![("x", reference("bindingId"))]))]);
    let object_branch = obj(vec![("type", s("object")), ("properties", obj(vec![("y", reference("bindingId"))]))]);
    let schema = binding_schema(
        vec![("node", obj(vec![("oneOf", arr(vec![string_branch, object_branch]))]))],
        vec![],
    );
    let root = obj(vec![
        ("bindings", table(&["a"])),
        ("node", obj(vec![("x", s("bad_x")), ("y", s("bad_y"))])),
    ]);
    assert_eq!(check(&root, &schema), vec!["node.y: bindingId 'bad_y' not found in 'bindings'"]);
}

#[test]
fn one_of_looks_referenced_types_up_by_the_last_segment() {
    let node = obj(vec![("k", s("z"))]);
    let schema_node = obj(vec![("oneOf", arr(vec![reference("s")]))]);
    let run = |definitions: &Vec<(String, Json)>| {
        let mut errors: Vec<String> = vec![];
        let result = walk_schema_and_validate(
            &node,
            &schema_node,
            &obj(vec![]),
            &FileRegistry::new(),
            "p",
            &mut errors,
            definitions,
            &register_semantic_validators(),
            0,
        );
        assert!(result.is_ok());
        errors
    };
    let string_def = || obj(vec![("type", s("string")), ("additionalProperties", reference("bindingId"))]);
    // under its whole ref the definition's type is not found by the last
    // segment, so the branch is walked
    let by_ref = vec![
        ("#/definitions/s".to_string(), string_def()),
        ("#/definitions/bindingId".to_string(), obj(vec![])),
    ];
    assert_eq!(run(&by_ref), vec!["p.k: bindingId 'z' references, but no 'bindings' section exists in root"]);
    // a definition also registered under the bare name gives the type, and
    // the string branch is skipped for the object
    let with_bare = vec![
        ("#/definitions/s".to_string(), string_def()),
        ("s".to_string(), obj(vec![("type", s("string"))])),
        ("#/definitions/bindingId".to_string(), obj(vec![])),
    ];
    assert!(run(&with_bare).is_empty());
}

#[test]
fn root_all_of_walks_the_whole_document() {
    let schema = binding_schema(
        vec![],
        vec![("allOf", arr(vec![obj(vec![("properties", obj(vec![("anim", reference("bindingId"))]))])]))],
    );
    let root = obj(vec![("anim", s("none"))]);
    assert_eq!(
        check(&root, &schema),
        vec!["anim: bindingId 'none' references, but no 'bindings' section exists in root"]
    );
}

#[test]
fn endless_reference_chain_is_refused() {
    let schema = obj(vec![
        ("definitions", obj(vec![("a", reference("b")), ("b", reference("a"))])),
        ("properties", obj(vec![("x", reference("a"))])),
    ]);
    let root = obj(vec![("x", s("v"))]);
    assert!(validate_semantics(&root, &FileRegistry::new(), &schema, 0).is_err());
    // recursion that descends into the document ends
    let schema = obj(vec![
        ("definitions", obj(vec![("node", obj(vec![("properties", obj(vec![("child", reference("node"))]))]))])),
        ("properties", obj(vec![("tree", reference("node"))])),
    ]);
    let root = obj(vec![("tree", obj(vec![("child", obj(vec![("child", obj(vec![]))]))]))]);
    assert!(validate_semantics(&root, &FileRegistry::new(), &schema, 0).unwrap().is_empty());
}

#[test]
fn walk_appends_to_the_errors() {
    let definitions = vec![("#/definitions/bindingId".to_string(), obj(vec![("type", s("string"))]))];
    let root = obj(vec![("bindings", table(&["a"]))]);
    let mut errors = vec!["earlier".to_string()];
    let validators = register_semantic_validators();
    walk_schema_and_validate(
        &s("b"),
        &reference("bindingId"),
        &root,
        &FileRegistry::new(),
        "here",
        &mut errors,
        &definitions,
        &validators,
        0,
    )
    .unwrap();
    assert_eq!(errors, vec!["earlier", "here: bindingId 'b' not found in 'bindings'"]);
}

#[test]
fn references_resolve_through_the_registry() {
    let schema = binding_schema(vec![("target", reference("bindingId"))], vec![]);
    let mut registry = FileRegistry::new();
    registry.register_document(obj(vec![("id", s("base")), ("bindings", table(&["shared"]))]));
    let root = obj(vec![("copy_configs", s("base")), ("target", s("shared"))]);
    assert!(validate_semantics(&root, &registry, &schema, 0).unwrap().is_empty());
}

#[test]
fn ref_chains_end_only_where_they_come_back() {
    let root = obj(vec![("bindings", table(&["a"]))]);
    let validators = register_semantic_validators();
    let run = |definitions: &Vec<(String, Json)>, start: &str| {
        let mut errors = vec!["earlier".to_string()];
        let r = walk_schema_and_validate(
            &s("zz"),
            &reference(start),
            &root,
            &FileRegistry::new(),
            "p",
            &mut errors,
            definitions,
            &validators,
            0,
        );
        (r.is_ok(), errors)
    };
    // a chain of three refs that meets no ref twice is followed to its end
    let chain = vec![
        ("#/definitions/bindingId".to_string(), obj(vec![("type", s("string"))])),
        ("#/definitions/alias".to_string(), reference("bindingId")),
        ("#/definitions/outer".to_string(), reference("alias")),
    ];
    let (ok, errors) = run(&chain, "outer");
    assert!(ok);
    assert_eq!(errors, vec!["earlier", "p: bindingId 'zz' not found in 'bindings'"]);
    // a chain that comes back to a ref it followed is refused; what was
    // found before stays
    let cycle = vec![
        ("#/definitions/bindingId".to_string(), reference("alias")),
        ("#/definitions/alias".to_string(), reference("bindingId")),
    ];
    let (ok, errors) = run(&cycle, "bindingId");
    assert!(!ok);
    assert_eq!(errors[0], "earlier");
    assert_eq!(errors[1], "p: bindingId 'zz' not found in 'bindings'");
}

#[test]
fn empty_schema_finds_nothing() {
    let root = obj(vec![("bindings", table(&["a"]))]);
    let validators = register_semantic_validators();
    let mut errors = Vec::new();
    let doc = obj(vec![("x", s("not_a_binding")), ("y", arr(vec![obj(vec![("z", s("q"))])]))]);
    walk_schema_and_validate(
        &doc,
        &obj(vec![]),
        &root,
        &FileRegistry::new(),
        "",
        &mut errors,
        &Vec::new(),
        &validators,
        2,
    )
    .unwrap();
    assert!(errors.is_empty());
}

#[test]
fn errors_begin_with_the_walk_path() {
    let item = obj(vec![("properties", obj(vec![("id", reference("bindingId"))]))]);
    let schema_node = obj(vec![
        ("$ref", s("#/definitions/bindingId")),
        ("properties", obj(vec![("child", reference("bindingId"))])),
        ("items", item),
    ]);
    let definitions = vec![("#/definitions/bindingId".to_string(), obj(vec![
        ("properties", obj(vec![("child", reference("bindingId"))])),
        ("items", obj(vec![("properties", obj(vec![("id", reference("bindingId"))]))])),
    ]))];
    let node = obj(vec![("child", s("c"))]);
    let root = obj(vec![("bindings", table(&["ok"]))]);
    let mut errors: Vec<String> = vec![];
    walk_schema_and_validate(
        &node,
        &schema_node,
        &root,
        &FileRegistry::new(),
        "top",
        &mut errors,
        &definitions,
        &register_semantic_validators(),
        0,
    )
    .unwrap();
    assert!(!errors.is_empty());
    for e in &errors {
        assert!(e.starts_with("top:") || e.starts_with("top.") || e.starts_with("top["), "{e}");
    }
    assert!(errors.contains(&"top.child: bindingId 'c' not found in 'bindings'".to_string()));
    let node = Json::Array(vec![obj(vec![("id", s("x"))])]);
    let mut errors: Vec<String> = vec![];
    walk_schema_and_validate(
        &node,
        &obj(vec![("items", obj(vec![("properties", obj(vec![("id", reference("bindingId"))]))]))]),
        &root,
        &FileRegistry::new(),
        "top",
        &mut errors,
        &definitions,
        &register_semantic_validators(),
        0,
    )
    .unwrap();
    assert_eq!(errors, vec!["top[0].id: bindingId 'x' not found in 'bindings'"]);
}

#[test]
fn no_validator_for_a_definition_adds_nothing() {
    let node = obj(vec![("k", s("z"))]);
    let schema_node = obj(vec![("additionalProperties", reference("bindingId"))]);
    let definitions = vec![("#/definitions/bindingId".to_string(), obj(vec![]))];
    let mut errors: Vec<String> = vec!["earlier".to_string()];
    let result = walk_schema_and_validate(
        &node,
        &schema_node,
        &obj(vec![]),
        &FileRegistry::new(),
        "p",
        &mut errors,
        &definitions,
        &vec![],
        0,
    );
    assert!(result.is_ok());
    assert_eq!(errors, vec!["earlier"]);
}

#[test]
fn schema_without_binding_definition_finds_nothing() {
    let schema = obj(vec![
        ("definitions", obj(vec![("other", obj(vec![("type", s("string"))]))])),
        ("properties", obj(vec![("target", reference("other")), ("more", reference("bindingId"))])),
    ]);
    let root = obj(vec![("target", s("missing")), ("more", s("missing"))]);
    assert!(check(&root, &schema).is_empty());
}

#[test]
fn every_string_resolvable_means_no_errors() {
    let schema = binding_schema(
        vec![("target", reference("bindingId")), ("list", obj(vec![("items", reference("bindingId"))]))],
        vec![],
    );
    let root = obj(vec![
        ("bindings", table(&["a", "b"])),
        ("target", s("a")),
        ("list", Json::Array(vec![s("b"), s("a")])),
    ]);
    assert!(check(&root, &schema).is_empty());
    // one string that is no binding gives exactly its message
    let root = obj(vec![
        ("bindings", table(&["a", "b"])),
        ("target", s("a")),
        ("list", Json::Array(vec![s("b"), s("nope")])),
    ]);
    assert_eq!(check(&root, &schema), vec!["list[1]: bindingId 'nope' not found in 'bindings'"]);
}
