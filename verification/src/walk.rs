use vstd::prelude::*;
use vstd::string::*;

use crate::bindings::{
    binding_ref_errors, holds_name, object_members, resolved_bindings, validate_binding_ref,
};
use crate::json::{
    lemma_item_smaller, lemma_member_smaller, lemma_member_value_smaller, member, members_of, size,
    size_items, size_members, Json,
};
use crate::pattern::{compile_pattern, pattern_compiles, pattern_is_match, pattern_matches};
use crate::registry::FileRegistry;
use crate::text::{
    after_last_slash, has_prefix, item_path, join_item_path, join_member_path, last_segment,
    member_path, text_eq,
};

verus! {

/// The semantic checks that a schema definition can carry.
#[derive(Clone, Copy)]
pub enum SemanticValidator {
    /// The value names a binding of the root document (`validate_binding_ref`).
    BindingRef,
}

/// The definitions' ref prefix.
pub open spec fn definitions_prefix() -> Seq<char> {
    "#/definitions/"@
}

/// What the walk reads besides the node and the schema node: the root
/// document, the registry's entries, the schema's definitions, each under
/// its ref (`#/definitions/name`), the registered semantic validators and
/// the verbosity.
pub struct WalkEnv {
    pub root: Json,
    pub files: Seq<(String, Json)>,
    pub definitions: Seq<(Seq<char>, Json)>,
    pub validators: Seq<(Seq<char>, SemanticValidator)>,
    pub verbose: u8,
}

/// The definition registered under the ref `key`, the first so registered.
pub open spec fn definition_for(defs: Seq<(Seq<char>, Json)>, key: Seq<char>) -> Option<Json>
    decreases defs.len(),
{
    if defs.len() == 0 {
        None
    } else if defs[0].0 == key {
        Some(defs[0].1)
    } else {
        definition_for(defs.drop_first(), key)
    }
}

/// Definitions by the text of their refs.
pub open spec fn definition_keys(defs: Seq<(String, Json)>) -> Seq<(Seq<char>, Json)> {
    defs.map_values(|d: (String, Json)| (d.0@, d.1))
}

/// Borrowed definitions by the text of their refs.
pub open spec fn borrowed_definition_keys(defs: Seq<(String, &Json)>) -> Seq<(Seq<char>, Json)> {
    defs.map_values(|d: (String, &Json)| (d.0@, *d.1))
}

/// The members of a schema's `definitions`, each under its ref.
pub open spec fn schema_definition_refs(table: Seq<(String, Json)>) -> Seq<(Seq<char>, Json)> {
    table.map_values(|d: (String, Json)| (definitions_prefix() + d.0@, d.1))
}

/// The registered validators by the text of their keys.
pub open spec fn validator_keys(vs: Seq<(String, SemanticValidator)>) -> Seq<(Seq<char>, SemanticValidator)> {
    vs.map_values(|v: (String, SemanticValidator)| (v.0@, v.1))
}

/// The validator registered for `key`, the first so registered.
pub open spec fn validator_for(vs: Seq<(Seq<char>, SemanticValidator)>, key: Seq<char>) -> Option<
    SemanticValidator,
>
    decreases vs.len(),
{
    if vs.len() == 0 {
        None
    } else if vs[0].0 == key {
        Some(vs[0].1)
    } else {
        validator_for(vs.drop_first(), key)
    }
}

/// The `$ref` of a schema node where it is a string that starts with
/// `#/definitions/` and names a definition: the ref and the definition.
pub open spec fn ref_target(env: WalkEnv, schema: Json) -> Option<(Seq<char>, Json)> {
    match member(schema, "$ref"@) {
        Some(Json::Str(r)) => if definitions_prefix().is_prefix_of(r@) {
            match definition_for(env.definitions, r@) {
                Some(d) => Some((r@, d)),
                None => None,
            }
        } else {
            None
        },
        _ => None,
    }
}

/// The errors of the validator registered for `key`, applied to a string
/// `node` at `path`; none where no validator is registered or the node is
/// not a string.
pub open spec fn validator_errors(env: WalkEnv, key: Seq<char>, node: Json, path: Seq<char>) -> Seq<
    Seq<char>,
> {
    match (validator_for(env.validators, key), node) {
        (Some(SemanticValidator::BindingRef), Json::Str(id)) => binding_ref_errors(
            path,
            id@,
            resolved_bindings(env.root, env.files, true),
            env.verbose,
        ),
        _ => Seq::empty(),
    }
}

/// Both parts, in order; nothing where either part ends the walk.
pub open spec fn join_errors(a: Option<Seq<Seq<char>>>, b: Option<Seq<Seq<char>>>) -> Option<
    Seq<Seq<char>>,
> {
    match (a, b) {
        (Some(x), Some(y)) => Some(x + y),
        _ => None,
    }
}

/// The items of an array node; none for any other node.
pub open spec fn items_of(node: Json) -> Seq<Json> {
    match node {
        Json::Array(items) => items@,
        _ => Seq::empty(),
    }
}

/// The items of the member `key` of a schema node where it is an array.
pub open spec fn schema_list(schema: Json, key: Seq<char>) -> Seq<Json> {
    match member(schema, key) {
        Some(Json::Array(items)) => items@,
        _ => Seq::empty(),
    }
}

/// The members of the member `key` of a schema node where it is an object.
pub open spec fn schema_table(schema: Json, key: Seq<char>) -> Seq<(String, Json)> {
    object_members(member(schema, key))
}

/// The value of the first of `names` that is a member of `node`.
pub open spec fn first_present_member(node: Json, names: Seq<(String, Json)>) -> Option<Json>
    decreases names.len(),
{
    if names.len() == 0 {
        None
    } else {
        match member(node, names[0].0@) {
            Some(v) => Some(v),
            None => first_present_member(node, names.drop_first()),
        }
    }
}

/// The `type` that a `oneOf` branch declares: where it has a `$ref` into
/// `#/definitions/`, that of the definition registered under the ref's
/// last segment alone (the definitions are registered under whole refs,
/// so a branch with such a `$ref` is never skipped unless a definition is
/// registered under a bare name); else its own `type`.
pub open spec fn branch_type(env: WalkEnv, sub: Json) -> Option<Seq<char>> {
    match member(sub, "$ref"@) {
        Some(r) => match r {
            Json::Str(rs) => if definitions_prefix().is_prefix_of(rs@) {
                match definition_for(env.definitions, after_last_slash(rs@)) {
                    Some(d) => match member(d, "type"@) {
                        Some(Json::Str(t)) => Some(t@),
                        _ => None,
                    },
                    None => None,
                }
            } else {
                None
            },
            _ => None,
        },
        None => match member(sub, "type"@) {
            Some(Json::Str(t)) => Some(t@),
            _ => None,
        },
    }
}

/// A `oneOf` branch is skipped where its type does not fit the node.
pub open spec fn branch_skipped(env: WalkEnv, sub: Json, node: Json) -> bool {
    ||| branch_type(env, sub) == Some("string"@) && node is Object
    ||| branch_type(env, sub) == Some("object"@) && !(node is Object)
}

/// The number of definitions whose ref is not among `visited`.
pub open spec fn unvisited(defs: Seq<(Seq<char>, Json)>, visited: Seq<Seq<char>>) -> nat
    decreases defs.len(),
{
    if defs.len() == 0 {
        0
    } else {
        unvisited(defs.drop_first(), visited) + if visited.contains(defs[0].0) {
            0nat
        } else {
            1nat
        }
    }
}

/// Following a ref that names a definition and was not followed before
/// leaves fewer definitions unvisited.
pub proof fn lemma_unvisited_decreases(defs: Seq<(Seq<char>, Json)>, visited: Seq<Seq<char>>, key: Seq<char>)
    ensures
        unvisited(defs, visited.push(key)) <= unvisited(defs, visited),
        !visited.contains(key) && definition_for(defs, key) is Some ==> unvisited(
            defs,
            visited.push(key),
        ) < unvisited(defs, visited),
    decreases defs.len(),
{
    if defs.len() > 0 {
        lemma_unvisited_decreases(defs.drop_first(), visited, key);
        let k = defs[0].0;
        if visited.contains(k) {
            let i = choose|i: int| 0 <= i < visited.len() && visited[i] == k;
            assert(visited.push(key)[i] == k);
        }
        if k == key {
            assert(visited.push(key)[visited.len() as int] == k);
        }
    }
}

/// The semantic errors found by walking `node` along the schema node
/// `schema` at `path`: the errors of every registered validator met at a
/// `$ref`, in walk order. `visited` are the refs followed on this node
/// since the walk last descended into a member or item. Nothing where a
/// ref among them is met again: the walk would then come back to the same
/// definition on the same node, over and over, and never end.
pub open spec fn walk(env: WalkEnv, node: Json, schema: Json, path: Seq<char>, visited: Seq<Seq<char>>) -> Option<
    Seq<Seq<char>>,
>
    decreases size(node), unvisited(env.definitions, visited), size(schema), 2nat, 0int, 0int,
{
    match node {
        Json::Array(_) => match member(schema, "items"@) {
            Some(_) => walk_array_items(env, node, schema, path, visited, 0),
            None => Some(Seq::empty()),
        },
        _ => match ref_target(env, schema) {
            Some((key, definition)) => if visited.contains(key) {
                None
            } else {
                proof {
                    lemma_unvisited_decreases(env.definitions, visited, key);
                }
                join_errors(
                    Some(validator_errors(env, key, node, path)),
                    walk(env, node, definition, path, visited.push(key)),
                )
            },
            None => walk_object(env, node, schema, path, visited),
        },
    }
}

/// The walk of an object node along a schema node without a followed
/// `$ref`: its `properties`, `additionalProperties`, `patternProperties`,
/// `items`, `allOf` and `oneOf`, in that order. (The walk of each member
/// along an empty schema, which comes last, finds nothing.)
pub open spec fn walk_object(env: WalkEnv, node: Json, schema: Json, path: Seq<char>, visited: Seq<Seq<char>>) -> Option<
    Seq<Seq<char>>,
>
    decreases size(node), unvisited(env.definitions, visited), size(schema), 1nat, 0int, 0int,
{
    if !(node is Object) {
        Some(Seq::empty())
    } else {
        let items = match member(schema, "items"@) {
            Some(items_schema) => {
                proof {
                    lemma_member_smaller(schema, "items"@);
                }
                walk(env, node, items_schema, item_path(path, 0), visited)
            },
            None => Some(Seq::empty()),
        };
        let properties = walk_properties(env, node, schema, path, visited, 0);
        let additional = walk_additional(env, node, schema, path, visited, 0);
        let patterns = walk_patterns(env, node, schema, path, visited, 0);
        let all_of = walk_all_of(env, node, schema, path, visited, 0);
        let one_of = walk_one_of(env, node, schema, path, visited, 0);
        join_errors(
            join_errors(
                join_errors(join_errors(join_errors(properties, additional), patterns), items),
                all_of,
            ),
            one_of,
        )
    }
}

/// The walk of items `i..` of an array node along the schema's `items`.
pub open spec fn walk_array_items(
    env: WalkEnv,
    node: Json,
    schema: Json,
    path: Seq<char>,
    visited: Seq<Seq<char>>,
    i: int,
) -> Option<Seq<Seq<char>>>
    decreases size(node), unvisited(env.definitions, visited), size(schema), 0nat, items_of(node).len() - i, 0int,
{
    if i < 0 || i >= items_of(node).len() {
        Some(Seq::empty())
    } else {
        match member(schema, "items"@) {
            Some(items_schema) => {
                proof {
                    lemma_item_smaller(items_of(node), i);
                }
                join_errors(
                    walk(
                        env,
                        items_of(node)[i],
                        items_schema,
                        item_path(path, i as nat),
                        Seq::empty(),
                    ),
                    walk_array_items(env, node, schema, path, visited, i + 1),
                )
            },
            None => Some(Seq::empty()),
        }
    }
}

/// The walk of the schema's `properties` `i..` that the node has.
pub open spec fn walk_properties(
    env: WalkEnv,
    node: Json,
    schema: Json,
    path: Seq<char>,
    visited: Seq<Seq<char>>,
    i: int,
) -> Option<Seq<Seq<char>>>
    decreases size(node), unvisited(env.definitions, visited), size(schema), 0nat, schema_table(schema, "properties"@).len() - i, 0int,
{
    let props = schema_table(schema, "properties"@);
    if i < 0 || i >= props.len() {
        Some(Seq::empty())
    } else {
        let rest = walk_properties(env, node, schema, path, visited, i + 1);
        match member(node, props[i].0@) {
            Some(child) => {
                proof {
                    lemma_member_smaller(node, props[i].0@);
                }
                join_errors(
                    walk(
                        env,
                        child,
                        props[i].1,
                        member_path(path, props[i].0@),
                        Seq::empty(),
                    ),
                    rest,
                )
            },
            None => rest,
        }
    }
}

/// The walk of members `i..` of the node, except those whose name starts
/// with `$`, along the schema's `additionalProperties`.
pub open spec fn walk_additional(
    env: WalkEnv,
    node: Json,
    schema: Json,
    path: Seq<char>,
    visited: Seq<Seq<char>>,
    i: int,
) -> Option<Seq<Seq<char>>>
    decreases size(node), unvisited(env.definitions, visited), size(schema), 0nat, members_of(node).len() - i, 0int,
{
    let entries = members_of(node);
    if i < 0 || i >= entries.len() {
        Some(Seq::empty())
    } else {
        match member(schema, "additionalProperties"@) {
            Some(additional) => {
                let rest = walk_additional(env, node, schema, path, visited, i + 1);
                if entries[i].0@.len() > 0 && entries[i].0@[0] == '$' {
                    rest
                } else {
                    proof {
                        lemma_member_value_smaller(entries, i);
                    }
                    join_errors(
                        walk(
                            env,
                            entries[i].1,
                            additional,
                            member_path(path, entries[i].0@),
                            Seq::empty(),
                        ),
                        rest,
                    )
                }
            },
            None => Some(Seq::empty()),
        }
    }
}

/// The walk along the schema's `patternProperties` `i..` whose pattern
/// compiles.
pub open spec fn walk_patterns(
    env: WalkEnv,
    node: Json,
    schema: Json,
    path: Seq<char>,
    visited: Seq<Seq<char>>,
    i: int,
) -> Option<Seq<Seq<char>>>
    decreases size(node), unvisited(env.definitions, visited), size(schema), 0nat, schema_table(
        schema,
        "patternProperties"@,
    ).len() - i, members_of(node).len() + 1,
{
    let patterns = schema_table(schema, "patternProperties"@);
    if i < 0 || i >= patterns.len() {
        Some(Seq::empty())
    } else {
        let rest = walk_patterns(env, node, schema, path, visited, i + 1);
        if pattern_compiles(patterns[i].0@) {
            join_errors(walk_pattern_keys(env, node, schema, path, visited, i, 0), rest)
        } else {
            rest
        }
    }
}

/// The walk of members `k..` of the node whose name matches pattern `i` of
/// the schema's `patternProperties`, along that pattern's schema.
pub open spec fn walk_pattern_keys(
    env: WalkEnv,
    node: Json,
    schema: Json,
    path: Seq<char>,
    visited: Seq<Seq<char>>,
    i: int,
    k: int,
) -> Option<Seq<Seq<char>>>
    decreases size(node), unvisited(env.definitions, visited), size(schema), 0nat, schema_table(
        schema,
        "patternProperties"@,
    ).len() - i, members_of(node).len() - k,
{
    let patterns = schema_table(schema, "patternProperties"@);
    let entries = members_of(node);
    if i < 0 || i >= patterns.len() || k < 0 || k >= entries.len() {
        Some(Seq::empty())
    } else {
        let rest = walk_pattern_keys(env, node, schema, path, visited, i, k + 1);
        if pattern_matches(patterns[i].0@, entries[k].0@) {
            proof {
                lemma_member_value_smaller(entries, k);
            }
            join_errors(
                walk(
                    env,
                    entries[k].1,
                    patterns[i].1,
                    member_path(path, entries[k].0@),
                    Seq::empty(),
                ),
                rest,
            )
        } else {
            rest
        }
    }
}

/// The walk along the schema's `allOf` branches `i..`: where a branch has
/// `properties`, along the first of them that the node has, with that
/// member's value; else along the branch with the node itself.
pub open spec fn walk_all_of(
    env: WalkEnv,
    node: Json,
    schema: Json,
    path: Seq<char>,
    visited: Seq<Seq<char>>,
    i: int,
) -> Option<Seq<Seq<char>>>
    decreases size(node), unvisited(env.definitions, visited), size(schema), 0nat, schema_list(schema, "allOf"@).len() - i, 0int,
{
    let branches = schema_list(schema, "allOf"@);
    if i < 0 || i >= branches.len() {
        Some(Seq::empty())
    } else {
        let sub = branches[i];
        let rest = walk_all_of(env, node, schema, path, visited, i + 1);
        let present = match member(sub, "properties"@) {
            Some(Json::Object(names)) => first_present_member(node, names@),
            _ => None,
        };
        match present {
            Some(sub_node) => {
                proof {
                    lemma_first_present_smaller(node, sub);
                }
                join_errors(walk(env, sub_node, sub, path, Seq::empty()), rest)
            },
            None => {
                proof {
                    lemma_schema_list_smaller(schema, "allOf"@, i);
                }
                join_errors(walk(env, node, sub, path, visited), rest)
            },
        }
    }
}

/// The walk along the schema's `oneOf` branches `i..` that fit the node.
pub open spec fn walk_one_of(
    env: WalkEnv,
    node: Json,
    schema: Json,
    path: Seq<char>,
    visited: Seq<Seq<char>>,
    i: int,
) -> Option<Seq<Seq<char>>>
    decreases size(node), unvisited(env.definitions, visited), size(schema), 0nat, schema_list(schema, "oneOf"@).len() - i, 0int,
{
    let branches = schema_list(schema, "oneOf"@);
    if i < 0 || i >= branches.len() {
        Some(Seq::empty())
    } else {
        let rest = walk_one_of(env, node, schema, path, visited, i + 1);
        if branch_skipped(env, branches[i], node) {
            rest
        } else {
            proof {
                lemma_schema_list_smaller(schema, "oneOf"@, i);
            }
            join_errors(walk(env, node, branches[i], path, visited), rest)
        }
    }
}

/// An item of an array member of a schema node is smaller than the node.
pub proof fn lemma_schema_list_smaller(schema: Json, key: Seq<char>, i: int)
    requires
        0 <= i < schema_list(schema, key).len(),
    ensures
        size(schema_list(schema, key)[i]) < size(schema),
{
    lemma_member_smaller(schema, key);
    if let Some(Json::Array(items)) = member(schema, key) {
        lemma_item_smaller(items@, i);
    }
}

/// The member that `first_present_member` finds is smaller than the node.
pub proof fn lemma_first_present_smaller(node: Json, sub: Json)
    ensures
        (match member(sub, "properties"@) {
            Some(Json::Object(names)) => first_present_member(node, names@),
            _ => None,
        }) matches Some(v) ==> size(v) < size(node),
{
    if let Some(Json::Object(names)) = member(sub, "properties"@) {
        lemma_first_present_is_member(node, names@);
    }
}

proof fn lemma_first_present_is_member(node: Json, names: Seq<(String, Json)>)
    ensures
        first_present_member(node, names) matches Some(v) ==> size(v) < size(node),
    decreases names.len(),
{
    if names.len() > 0 {
        if member(node, names[0].0@) is Some {
            lemma_member_smaller(node, names[0].0@);
        } else {
            lemma_first_present_is_member(node, names.drop_first());
        }
    }
}

/// The walk met a chain of `$ref`s that never descends into the document:
/// followed, it would never end.
#[derive(Debug)]
pub struct ReferenceCycle;

/// `after` begins with `before`, whatever happened (a walk that stops keeps
/// the errors found before it); `before` became `after` by what `outcome`
/// holds, where `ok`; and `ok` holds exactly where `outcome` holds
/// something.
pub open spec fn recorded(
    before: Seq<Seq<char>>,
    after: Seq<Seq<char>>,
    outcome: Option<Seq<Seq<char>>>,
    ok: bool,
) -> bool {
    &&& before.is_prefix_of(after)
    &&& ok == outcome is Some
    &&& ok ==> after == before + outcome->0
}

/// What extends an extension of `a` extends `a`.
proof fn lemma_extended_prefix(a: Seq<Seq<char>>, more: Seq<Seq<char>>, after: Seq<Seq<char>>)
    requires
        (a + more).is_prefix_of(after),
    ensures
        a.is_prefix_of(after),
{
    assert forall|k: int| 0 <= k < a.len() implies a[k] == after[k] by {
        assert((a + more)[k] == a[k]);
    }
    assert(a =~= after.subrange(0, a.len() as int));
}

pub proof fn lemma_join_errors_assoc(a: Seq<Seq<char>>, b: Seq<Seq<char>>, rest: Option<Seq<Seq<char>>>)
    ensures
        join_errors(Some(a), join_errors(Some(b), rest)) == join_errors(Some(a + b), rest),
{
    if let Some(c) = rest {
        assert(a + (b + c) =~= (a + b) + c);
    }
}

/// Recording `a` and then `b` records both in turn.
pub proof fn lemma_recorded_join(
    e0: Seq<Seq<char>>,
    e1: Seq<Seq<char>>,
    e2: Seq<Seq<char>>,
    a: Option<Seq<Seq<char>>>,
    b: Option<Seq<Seq<char>>>,
    ok: bool,
)
    requires
        recorded(e0, e1, a, true),
        recorded(e1, e2, b, ok),
    ensures
        recorded(e0, e2, join_errors(a, b), ok),
{
    if ok {
        assert(e0 + (a->0 + b->0) =~= (e0 + a->0) + b->0);
    }
}

/// A walk along a schema node without members finds nothing.
pub proof fn lemma_walk_memberless(env: WalkEnv, node: Json, schema: Json, path: Seq<char>, visited: Seq<Seq<char>>)
    requires
        forall|k: Seq<char>| #[trigger] member(schema, k) is None,
    ensures
        walk(env, node, schema, path, visited) == Some(Seq::<Seq<char>>::empty()),
{
    let e = Seq::<Seq<char>>::empty();
    assert(member(schema, "items"@) is None);
    assert(member(schema, "$ref"@) is None);
    assert(member(schema, "properties"@) is None);
    assert(member(schema, "additionalProperties"@) is None);
    assert(member(schema, "patternProperties"@) is None);
    assert(member(schema, "allOf"@) is None);
    assert(member(schema, "oneOf"@) is None);
    assert(e + e =~= e);
    assert(ref_target(env, schema) is None);
    if node is Object {
        assert(walk_properties(env, node, schema, path, visited, 0) == Some(e));
        assert(walk_additional(env, node, schema, path, visited, 0) == Some(e));
        assert(walk_patterns(env, node, schema, path, visited, 0) == Some(e));
        assert(walk_all_of(env, node, schema, path, visited, 0) == Some(e));
        assert(walk_one_of(env, node, schema, path, visited, 0) == Some(e));
        assert(walk_object(env, node, schema, path, visited) == Some(e));
    }
}

/// What the exec walk reads besides the node and schema node.
struct WalkContext<'a> {
    root: &'a Json,
    registry: &'a FileRegistry,
    definitions: &'a Vec<(String, &'a Json)>,
    validators: &'a Vec<(String, SemanticValidator)>,
    verbose: u8,
}

impl<'a> WalkContext<'a> {
    spec fn env(&self) -> WalkEnv {
        WalkEnv {
            root: *self.root,
            files: self.registry@,
            definitions: borrowed_definition_keys(self.definitions@),
            validators: validator_keys(self.validators@),
            verbose: self.verbose,
        }
    }
}

/// The definition that `key` refers to (see `definition_for`).
fn find_definition<'a>(defs: &Vec<(String, &'a Json)>, key: &str) -> (r: Option<&'a Json>)
    ensures
        r is Some == definition_for(borrowed_definition_keys(defs@), key@) is Some,
        r matches Some(d) ==> definition_for(borrowed_definition_keys(defs@), key@) == Some(*d),
{
    let ghost keys = borrowed_definition_keys(defs@);
    let mut i: usize = 0;
    assert(keys.skip(0) =~= keys);
    while i < defs.len()
        invariant
            i <= defs@.len(),
            keys == borrowed_definition_keys(defs@),
            definition_for(keys, key@) == definition_for(keys.skip(i as int), key@),
        decreases defs.len() - i,
    {
        assert(keys.skip(i as int)[0] == keys[i as int]);
        if text_eq(defs[i].0.as_str(), key) {
            return Some(defs[i].1);
        }
        assert(keys.skip(i as int).drop_first() =~= keys.skip(i + 1));
        i += 1;
    }
    None
}

/// The validator registered for `key` (see `validator_for`).
fn find_validator(vs: &Vec<(String, SemanticValidator)>, key: &str) -> (r: Option<SemanticValidator>)
    ensures
        r == validator_for(validator_keys(vs@), key@),
{
    let ghost keys = validator_keys(vs@);
    let mut i: usize = 0;
    assert(keys.skip(0) =~= keys);
    while i < vs.len()
        invariant
            i <= vs@.len(),
            keys == validator_keys(vs@),
            validator_for(keys, key@) == validator_for(keys.skip(i as int), key@),
        decreases vs.len() - i,
    {
        assert(keys.skip(i as int)[0] == keys[i as int]);
        if text_eq(vs[i].0.as_str(), key) {
            return Some(vs[i].1);
        }
        assert(keys.skip(i as int).drop_first() =~= keys.skip(i + 1));
        i += 1;
    }
    None
}

/// The semantic validators, each under the definition ref it checks.
pub fn register_semantic_validators() -> (r: Vec<(String, SemanticValidator)>)
    ensures
        r@.len() == 1,
        r@[0].0@ == "#/definitions/bindingId"@,
        r@[0].1 == SemanticValidator::BindingRef,
{
    let mut validators: Vec<(String, SemanticValidator)> = Vec::new();
    validators.push((String::from_str("#/definitions/bindingId"), SemanticValidator::BindingRef));
    validators
}

/// Appends the errors of `more` to `errors`.
fn append_errors(errors: &mut Vec<String>, more: Vec<String>)
    ensures
        final(errors).deep_view() == old(errors).deep_view() + more.deep_view(),
{
    let mut more = more;
    let ghost m = more.deep_view();
    errors.append(&mut more);
    assert(errors.deep_view() =~= old(errors).deep_view() + m);
}

/// The value of the first of `names` that is a member of `node`.
fn first_present<'a>(node: &'a Json, names: &Vec<(String, Json)>) -> (r: Option<&'a Json>)
    ensures
        r is Some == first_present_member(*node, names@) is Some,
        r matches Some(v) ==> first_present_member(*node, names@) == Some(*v),
{
    let mut i: usize = 0;
    assert(names@.skip(0) =~= names@);
    while i < names.len()
        invariant
            i <= names@.len(),
            first_present_member(*node, names@) == first_present_member(
                *node,
                names@.skip(i as int),
            ),
        decreases names.len() - i,
    {
        assert(names@.skip(i as int)[0] == names@[i as int]);
        match node.get_member(names[i].0.as_str()) {
            Some(v) => {
                return Some(v);
            },
            None => {},
        }
        assert(names@.skip(i as int).drop_first() =~= names@.skip(i + 1));
        i += 1;
    }
    None
}

/// The type that a `oneOf` branch declares (see `branch_type`).
fn branch_type_of<'a>(definitions: &Vec<(String, &'a Json)>, sub: &'a Json) -> (r: Option<&'a String>)
    ensures
        forall|env: WalkEnv|
            env.definitions == borrowed_definition_keys(definitions@) ==> {
                &&& r is Some == branch_type(env, *sub) is Some
                &&& r matches Some(t) ==> branch_type(env, *sub) == Some(t@)
            },
{
    match sub.get_member("$ref") {
        Some(r) => match r {
            Json::Str(rs) => {
                if has_prefix(rs.as_str(), "#/definitions/") {
                    match find_definition(definitions, last_segment(rs.as_str())) {
                        Some(d) => d.get_text_member("type"),
                        None => None,
                    }
                } else {
                    None
                }
            },
            _ => None,
        },
        None => sub.get_text_member("type"),
    }
}

/// No refs followed yet: the start of the walk of a node.
fn no_refs() -> (r: Vec<String>)
    ensures
        r.deep_view() == Seq::<Seq<char>>::empty(),
{
    let r: Vec<String> = Vec::new();
    assert(r.deep_view() =~= Seq::<Seq<char>>::empty());
    r
}

/// `visited` and then the ref `key`.
fn with_ref(visited: &Vec<String>, key: &String) -> (r: Vec<String>)
    ensures
        r.deep_view() == visited.deep_view().push(key@),
{
    let mut r: Vec<String> = Vec::new();
    let mut i: usize = 0;
    while i < visited.len()
        invariant
            i <= visited@.len(),
            r.deep_view() =~= visited.deep_view().take(i as int),
        decreases visited.len() - i,
    {
        let ghost before = r.deep_view();
        let item = visited[i].clone();
        r.push(item);
        assert(r.deep_view() =~= before.push(visited.deep_view()[i as int]));
        assert(visited.deep_view().take(i + 1) =~= visited.deep_view().take(i as int).push(
            visited.deep_view()[i as int],
        ));
        i += 1;
    }
    assert(visited.deep_view().take(i as int) =~= visited.deep_view());
    r.push(key.clone());
    assert(r.deep_view() =~= visited.deep_view().push(key@));
    r
}

/// Walks a node along a schema node (see `walk`).
fn walk_node(
    ctx: &WalkContext,
    node: &Json,
    schema: &Json,
    path: &str,
    errors: &mut Vec<String>,
    visited: &Vec<String>,
) -> (r: Result<(), ReferenceCycle>)
    ensures
        recorded(
            old(errors).deep_view(),
            final(errors).deep_view(),
            walk(ctx.env(), *node, *schema, path@, visited.deep_view()),
            r is Ok,
        ),
    decreases size(*node), unvisited(ctx.env().definitions, visited.deep_view()), size(*schema), 2nat, 0int, 0int,
{
    let ghost env = ctx.env();
    let ghost e0 = errors.deep_view();
    if let Json::Array(_) = node {
        match schema.get_member("items") {
            Some(_) => {
                return walk_items_section(ctx, node, schema, path, errors, visited);
            },
            None => {
                assert(e0 + Seq::<Seq<char>>::empty() =~= e0);
                return Ok(());
            },
        }
    }
    let target: Option<(&String, &Json)> = match schema.get_member("$ref") {
        Some(Json::Str(ref_str)) => {
            if has_prefix(ref_str.as_str(), "#/definitions/") {
                match find_definition(ctx.definitions, ref_str.as_str()) {
                    Some(d) => Some((ref_str, d)),
                    None => None,
                }
            } else {
                None
            }
        },
        _ => None,
    };
    assert(target is Some == ref_target(env, *schema) is Some);
    match target {
        Some((ref_str, referenced)) => {
            assert(ref_target(env, *schema) == Some((ref_str@, *referenced)));
            if holds_name(visited, ref_str.as_str()) {
                return Err(ReferenceCycle);
            }
            match find_validator(ctx.validators, ref_str.as_str()) {
                Some(SemanticValidator::BindingRef) => {
                    if let Json::Str(_) = node {
                        let found = validate_binding_ref(
                            node,
                            ctx.root,
                            ctx.registry,
                            path,
                            ctx.verbose,
                        );
                        append_errors(errors, found);
                    } else {
                        assert(e0 + Seq::<Seq<char>>::empty() =~= e0);
                    }
                },
                None => {
                    assert(e0 + Seq::<Seq<char>>::empty() =~= e0);
                },
            }
            let ghost e1 = errors.deep_view();
            let ghost v = validator_errors(env, ref_str@, *node, path@);
            assert(e1 == e0 + v);
            let next = with_ref(visited, ref_str);
            proof {
                lemma_unvisited_decreases(env.definitions, visited.deep_view(), ref_str@);
            }
            let r = walk_node(ctx, node, referenced, path, errors, &next);
            proof {
                lemma_recorded_join(
                    e0,
                    e1,
                    errors.deep_view(),
                    Some(v),
                    walk(env, *node, *referenced, path@, visited.deep_view().push(ref_str@)),
                    r is Ok,
                );
            }
            r
        },
        None => walk_object_node(ctx, node, schema, path, errors, visited),
    }
}

/// Walks an object node along a schema node without a followed `$ref`
/// (see `walk_object`), then each of its members along an empty schema.
fn walk_object_node(
    ctx: &WalkContext,
    node: &Json,
    schema: &Json,
    path: &str,
    errors: &mut Vec<String>,
    visited: &Vec<String>,
) -> (r: Result<(), ReferenceCycle>)
    ensures
        recorded(
            old(errors).deep_view(),
            final(errors).deep_view(),
            walk_object(ctx.env(), *node, *schema, path@, visited.deep_view()),
            r is Ok,
        ),
    decreases size(*node), unvisited(ctx.env().definitions, visited.deep_view()), size(*schema), 1nat, 0int, 0int,
{
    let ghost env = ctx.env();
    let ghost b = visited.deep_view();
    let ghost e0 = errors.deep_view();
    match node {
        Json::Object(_) => {},
        _ => {
            assert(e0 + Seq::<Seq<char>>::empty() =~= e0);
            return Ok(());
        },
    }
    let ghost s1 = walk_properties(env, *node, *schema, path@, b, 0);
    let ghost s2 = walk_additional(env, *node, *schema, path@, b, 0);
    let ghost s3 = walk_patterns(env, *node, *schema, path@, b, 0);
    let ghost s4 = match member(*schema, "items"@) {
        Some(items_schema) => walk(env, *node, items_schema, item_path(path@, 0), b),
        None => Some(Seq::<Seq<char>>::empty()),
    };
    let ghost s5 = walk_all_of(env, *node, *schema, path@, b, 0);
    let ghost s6 = walk_one_of(env, *node, *schema, path@, b, 0);
    assert(walk_object(env, *node, *schema, path@, b) == join_errors(
        join_errors(join_errors(join_errors(join_errors(s1, s2), s3), s4), s5),
        s6,
    ));
    let r = walk_properties_section(ctx, node, schema, path, errors, visited);
    let ghost e1 = errors.deep_view();
    if r.is_err() {
        return r;
    }
    let r = walk_additional_section(ctx, node, schema, path, errors, visited);
    let ghost e2 = errors.deep_view();
    proof {
        lemma_recorded_join(e0, e1, e2, s1, s2, r is Ok);
    }
    if r.is_err() {
        return r;
    }
    let r = walk_patterns_section(ctx, node, schema, path, errors, visited);
    let ghost e3 = errors.deep_view();
    proof {
        lemma_recorded_join(e0, e2, e3, join_errors(s1, s2), s3, r is Ok);
    }
    if r.is_err() {
        return r;
    }
    let r = match schema.get_member("items") {
        Some(items_schema) => {
            proof {
                lemma_member_smaller(*schema, "items"@);
            }
            let p = join_item_path(path, 0);
            walk_node(ctx, node, items_schema, p.as_str(), errors, visited)
        },
        None => {
            assert(e3 + Seq::<Seq<char>>::empty() =~= e3);
            Ok(())
        },
    };
    let ghost e4 = errors.deep_view();
    proof {
        lemma_recorded_join(e0, e3, e4, join_errors(join_errors(s1, s2), s3), s4, r is Ok);
    }
    if r.is_err() {
        return r;
    }
    let r = walk_all_of_section(ctx, node, schema, path, errors, visited);
    let ghost e5 = errors.deep_view();
    proof {
        lemma_recorded_join(
            e0,
            e4,
            e5,
            join_errors(join_errors(join_errors(s1, s2), s3), s4),
            s5,
            r is Ok,
        );
    }
    if r.is_err() {
        return r;
    }
    let r = walk_one_of_section(ctx, node, schema, path, errors, visited);
    let ghost e6 = errors.deep_view();
    proof {
        lemma_recorded_join(
            e0,
            e5,
            e6,
            join_errors(join_errors(join_errors(join_errors(s1, s2), s3), s4), s5),
            s6,
            r is Ok,
        );
    }
    if r.is_err() {
        return r;
    }
    walk_nested_section(ctx, node, path, errors);
    r
}

/// Walks each item of an array node along the schema's `items`.
fn walk_items_section(
    ctx: &WalkContext,
    node: &Json,
    schema: &Json,
    path: &str,
    errors: &mut Vec<String>,
    visited: &Vec<String>,
) -> (r: Result<(), ReferenceCycle>)
    ensures
        recorded(
            old(errors).deep_view(),
            final(errors).deep_view(),
            walk_array_items(ctx.env(), *node, *schema, path@, visited.deep_view(), 0),
            r is Ok,
        ),
    decreases size(*node), unvisited(ctx.env().definitions, visited.deep_view()), size(*schema), 0nat, 0int, 0int,
{
    let ghost env = ctx.env();
    let ghost b = visited.deep_view();
    let ghost e0 = errors.deep_view();
    let items = match node {
        Json::Array(items) => items,
        _ => {
            assert(e0 + Seq::<Seq<char>>::empty() =~= e0);
            return Ok(());
        },
    };
    let items_schema = match schema.get_member("items") {
        Some(s) => s,
        None => {
            assert(e0 + Seq::<Seq<char>>::empty() =~= e0);
            return Ok(());
        },
    };
    let ghost mut added = Seq::<Seq<char>>::empty();
    assert(e0 + added =~= e0);
    let mut i: usize = 0;
    while i < items.len()
        invariant
            i <= items@.len(),
            items_of(*node) == items@,
            size(*node) == 1 + size_items(items@),
            member(*schema, "items"@) == Some(*items_schema),
            env == ctx.env(),
            b == visited.deep_view(),
            errors.deep_view() == e0 + added,
            e0 == old(errors).deep_view(),
            walk_array_items(env, *node, *schema, path@, b, 0) == join_errors(
                Some(added),
                walk_array_items(env, *node, *schema, path@, b, i as int),
            ),
        decreases items.len() - i,
    {
        let p = join_item_path(path, i);
        proof {
            lemma_item_smaller(items@, i as int);
        }
        let ghost before = errors.deep_view();
        let ghost w = walk(
            env,
            items@[i as int],
            *items_schema,
            item_path(path@, i as nat),
            Seq::empty(),
        );
        let ghost rest = walk_array_items(env, *node, *schema, path@, b, i + 1);
        assert(walk_array_items(env, *node, *schema, path@, b, i as int) == join_errors(w, rest));
        let r = walk_node(ctx, &items[i], items_schema, p.as_str(), errors, &no_refs());
        match r {
            Err(e) => {
                proof {
                    lemma_extended_prefix(e0, added, errors.deep_view());
                }
                return Err(e);
            },
            Ok(()) => {},
        }
        proof {
            lemma_join_errors_assoc(added, w->0, rest);
            added = added + w->0;
            assert(errors.deep_view() =~= e0 + added);
        }
        i += 1;
    }
    assert(added + Seq::<Seq<char>>::empty() =~= added);
    Ok(())
}

/// Walks each member of the node named in the schema's `properties` along
/// that property's schema.
fn walk_properties_section(
    ctx: &WalkContext,
    node: &Json,
    schema: &Json,
    path: &str,
    errors: &mut Vec<String>,
    visited: &Vec<String>,
) -> (r: Result<(), ReferenceCycle>)
    ensures
        recorded(
            old(errors).deep_view(),
            final(errors).deep_view(),
            walk_properties(ctx.env(), *node, *schema, path@, visited.deep_view(), 0),
            r is Ok,
        ),
    decreases size(*node), unvisited(ctx.env().definitions, visited.deep_view()), size(*schema), 0nat, 0int, 0int,
{
    let ghost env = ctx.env();
    let ghost b = visited.deep_view();
    let ghost e0 = errors.deep_view();
    let props = match schema.get_member("properties") {
        Some(Json::Object(props)) => props,
        _ => {
            assert(e0 + Seq::<Seq<char>>::empty() =~= e0);
            return Ok(());
        },
    };
    let ghost mut added = Seq::<Seq<char>>::empty();
    assert(e0 + added =~= e0);
    let mut i: usize = 0;
    while i < props.len()
        invariant
            i <= props@.len(),
            schema_table(*schema, "properties"@) == props@,
            env == ctx.env(),
            b == visited.deep_view(),
            errors.deep_view() == e0 + added,
            e0 == old(errors).deep_view(),
            walk_properties(env, *node, *schema, path@, b, 0) == join_errors(
                Some(added),
                walk_properties(env, *node, *schema, path@, b, i as int),
            ),
        decreases props.len() - i,
    {
        let ghost rest = walk_properties(env, *node, *schema, path@, b, i + 1);
        match node.get_member(props[i].0.as_str()) {
            Some(child) => {
                proof {
                    lemma_member_smaller(*node, props@[i as int].0@);
                }
                let ghost w = walk(
                    env,
                    *child,
                    props@[i as int].1,
                    member_path(path@, props@[i as int].0@),
                    Seq::empty(),
                );
                assert(walk_properties(env, *node, *schema, path@, b, i as int) == join_errors(
                    w,
                    rest,
                ));
                let p = join_member_path(path, props[i].0.as_str());
                let r = walk_node(ctx, child, &props[i].1, p.as_str(), errors, &no_refs());
                match r {
                    Err(e) => {
                        proof {
                            lemma_extended_prefix(e0, added, errors.deep_view());
                        }
                        return Err(e);
                    },
                    Ok(()) => {},
                }
                proof {
                    lemma_join_errors_assoc(added, w->0, rest);
                    added = added + w->0;
                    assert(errors.deep_view() =~= e0 + added);
                }
            },
            None => {
                assert(walk_properties(env, *node, *schema, path@, b, i as int) == rest);
            },
        }
        i += 1;
    }
    assert(added + Seq::<Seq<char>>::empty() =~= added);
    Ok(())
}

/// Walks each member of the node whose name does not start with `$` along
/// the schema's `additionalProperties`.
fn walk_additional_section(
    ctx: &WalkContext,
    node: &Json,
    schema: &Json,
    path: &str,
    errors: &mut Vec<String>,
    visited: &Vec<String>,
) -> (r: Result<(), ReferenceCycle>)
    ensures
        recorded(
            old(errors).deep_view(),
            final(errors).deep_view(),
            walk_additional(ctx.env(), *node, *schema, path@, visited.deep_view(), 0),
            r is Ok,
        ),
    decreases size(*node), unvisited(ctx.env().definitions, visited.deep_view()), size(*schema), 0nat, 0int, 0int,
{
    let ghost env = ctx.env();
    let ghost b = visited.deep_view();
    let ghost e0 = errors.deep_view();
    let entries = match node {
        Json::Object(ms) => ms,
        _ => {
            assert(e0 + Seq::<Seq<char>>::empty() =~= e0);
            return Ok(());
        },
    };
    let additional = match schema.get_member("additionalProperties") {
        Some(a) => a,
        None => {
            assert(e0 + Seq::<Seq<char>>::empty() =~= e0);
            return Ok(());
        },
    };
    proof {
        reveal_strlit("$");
    }
    let ghost mut added = Seq::<Seq<char>>::empty();
    assert(e0 + added =~= e0);
    let mut i: usize = 0;
    while i < entries.len()
        invariant
            i <= entries@.len(),
            members_of(*node) == entries@,
            size(*node) == 1 + size_members(entries@),
            member(*schema, "additionalProperties"@) == Some(*additional),
            "$"@ == seq!['$'],
            env == ctx.env(),
            b == visited.deep_view(),
            errors.deep_view() == e0 + added,
            e0 == old(errors).deep_view(),
            walk_additional(env, *node, *schema, path@, b, 0) == join_errors(
                Some(added),
                walk_additional(env, *node, *schema, path@, b, i as int),
            ),
        decreases entries.len() - i,
    {
        let ghost key = entries@[i as int].0@;
        let ghost rest = walk_additional(env, *node, *schema, path@, b, i + 1);
        if has_prefix(entries[i].0.as_str(), "$") {
            assert("$"@.is_prefix_of(key));
            assert(key.len() > 0 && key[0] == '$') by {
                assert(key.subrange(0, 1)[0] == key[0]);
                assert("$"@[0] == '$');
            }
            assert(walk_additional(env, *node, *schema, path@, b, i as int) == rest);
        } else {
            assert(!(key.len() > 0 && key[0] == '$')) by {
                if key.len() > 0 && key[0] == '$' {
                    assert("$"@ =~= key.subrange(0, 1));
                }
            }
            proof {
                lemma_member_value_smaller(entries@, i as int);
            }
            let ghost w = walk(
                env,
                entries@[i as int].1,
                *additional,
                member_path(path@, key),
                Seq::empty(),
            );
            assert(walk_additional(env, *node, *schema, path@, b, i as int) == join_errors(w, rest));
            let p = join_member_path(path, entries[i].0.as_str());
            let r = walk_node(ctx, &entries[i].1, additional, p.as_str(), errors, &no_refs());
            match r {
                Err(e) => {
                    proof {
                        lemma_extended_prefix(e0, added, errors.deep_view());
                    }
                    return Err(e);
                },
                Ok(()) => {},
            }
            proof {
                lemma_join_errors_assoc(added, w->0, rest);
                added = added + w->0;
                assert(errors.deep_view() =~= e0 + added);
            }
        }
        i += 1;
    }
    assert(added + Seq::<Seq<char>>::empty() =~= added);
    Ok(())
}

/// Walks, for each pattern of the schema's `patternProperties` that
/// compiles, each member of the node whose name it matches, along that
/// pattern's schema.
fn walk_patterns_section(
    ctx: &WalkContext,
    node: &Json,
    schema: &Json,
    path: &str,
    errors: &mut Vec<String>,
    visited: &Vec<String>,
) -> (r: Result<(), ReferenceCycle>)
    ensures
        recorded(
            old(errors).deep_view(),
            final(errors).deep_view(),
            walk_patterns(ctx.env(), *node, *schema, path@, visited.deep_view(), 0),
            r is Ok,
        ),
    decreases size(*node), unvisited(ctx.env().definitions, visited.deep_view()), size(*schema), 0nat, 0int, 0int,
{
    let ghost env = ctx.env();
    let ghost b = visited.deep_view();
    let ghost e0 = errors.deep_view();
    let patterns = match schema.get_member("patternProperties") {
        Some(Json::Object(ps)) => ps,
        _ => {
            assert(e0 + Seq::<Seq<char>>::empty() =~= e0);
            return Ok(());
        },
    };
    let entries = match node {
        Json::Object(ms) => ms,
        _ => {
            assert(e0 + Seq::<Seq<char>>::empty() =~= e0);
            assert(walk_patterns(env, *node, *schema, path@, b, 0) == Some(
                Seq::<Seq<char>>::empty(),
            )) by {
                lemma_patterns_of_non_object(env, *node, *schema, path@, b, 0);
            }
            return Ok(());
        },
    };
    let ghost mut added = Seq::<Seq<char>>::empty();
    assert(e0 + added =~= e0);
    let mut i: usize = 0;
    while i < patterns.len()
        invariant
            i <= patterns@.len(),
            schema_table(*schema, "patternProperties"@) == patterns@,
            members_of(*node) == entries@,
            size(*node) == 1 + size_members(entries@),
            env == ctx.env(),
            b == visited.deep_view(),
            errors.deep_view() == e0 + added,
            e0 == old(errors).deep_view(),
            walk_patterns(env, *node, *schema, path@, b, 0) == join_errors(
                Some(added),
                walk_patterns(env, *node, *schema, path@, b, i as int),
            ),
        decreases patterns.len() - i,
    {
        let ghost rest = walk_patterns(env, *node, *schema, path@, b, i + 1);
        match compile_pattern(patterns[i].0.as_str()) {
            Some(compiled) => {
                let ghost keys = walk_pattern_keys(env, *node, *schema, path@, b, i as int, 0);
                assert(walk_patterns(env, *node, *schema, path@, b, i as int) == join_errors(
                    keys,
                    rest,
                ));
                let ghost e_start = errors.deep_view();
                let ghost mut inner = Seq::<Seq<char>>::empty();
                assert(e_start + inner =~= e_start);
                let mut k: usize = 0;
                while k < entries.len()
                    invariant
                        i < patterns@.len(),
                        k <= entries@.len(),
                        schema_table(*schema, "patternProperties"@) == patterns@,
                        members_of(*node) == entries@,
                        size(*node) == 1 + size_members(entries@),
                        compiled@ == patterns@[i as int].0@,
                        env == ctx.env(),
                        b == visited.deep_view(),
                        errors.deep_view() == e_start + inner,
                        e0 == old(errors).deep_view(),
                        keys == walk_pattern_keys(env, *node, *schema, path@, b, i as int, 0),
                        walk_patterns(env, *node, *schema, path@, b, 0) == join_errors(
                            Some(added),
                            walk_patterns(env, *node, *schema, path@, b, i as int),
                        ),
                        walk_patterns(env, *node, *schema, path@, b, i as int) == join_errors(
                            keys,
                            rest,
                        ),
                        e_start == e0 + added,
                        keys == join_errors(
                            Some(inner),
                            walk_pattern_keys(env, *node, *schema, path@, b, i as int, k as int),
                        ),
                    decreases entries.len() - k,
                {
                    let ghost krest = walk_pattern_keys(
                        env,
                        *node,
                        *schema,
                        path@,
                        b,
                        i as int,
                        k + 1,
                    );
                    if pattern_is_match(&compiled, entries[k].0.as_str()) {
                        proof {
                            lemma_member_value_smaller(entries@, k as int);
                        }
                        let ghost w = walk(
                            env,
                            entries@[k as int].1,
                            patterns@[i as int].1,
                            member_path(path@, entries@[k as int].0@),
                            Seq::empty(),
                        );
                        assert(walk_pattern_keys(env, *node, *schema, path@, b, i as int, k as int)
                            == join_errors(w, krest));
                        let p = join_member_path(path, entries[k].0.as_str());
                        let r = walk_node(
                            ctx,
                            &entries[k].1,
                            &patterns[i].1,
                            p.as_str(),
                            errors,
                            &no_refs(),
                        );
                        match r {
                            Err(e) => {
                                proof {
                                    assert(e_start + inner =~= e0 + (added + inner));
                                    lemma_extended_prefix(e0, added + inner, errors.deep_view());
                                }
                                return Err(e);
                            },
                            Ok(()) => {},
                        }
                        proof {
                            lemma_join_errors_assoc(inner, w->0, krest);
                            inner = inner + w->0;
                            assert(errors.deep_view() =~= e_start + inner);
                        }
                    } else {
                        assert(walk_pattern_keys(env, *node, *schema, path@, b, i as int, k as int)
                            == krest);
                    }
                    k += 1;
                }
                proof {
                    assert(inner + Seq::<Seq<char>>::empty() =~= inner);
                    lemma_join_errors_assoc(added, inner, rest);
                    added = added + inner;
                    assert(errors.deep_view() =~= e0 + added);
                }
            },
            None => {
                assert(walk_patterns(env, *node, *schema, path@, b, i as int) == rest);
            },
        }
        i += 1;
    }
    assert(added + Seq::<Seq<char>>::empty() =~= added);
    Ok(())
}

/// The patterns of a node that is no object find nothing.
proof fn lemma_patterns_of_non_object(
    env: WalkEnv,
    node: Json,
    schema: Json,
    path: Seq<char>,
    visited: Seq<Seq<char>>,
    i: int,
)
    requires
        !(node is Object),
    ensures
        walk_patterns(env, node, schema, path, visited, i) == Some(Seq::<Seq<char>>::empty()),
    decreases schema_table(schema, "patternProperties"@).len() - i,
{
    if 0 <= i < schema_table(schema, "patternProperties"@).len() {
        lemma_patterns_of_non_object(env, node, schema, path, visited, i + 1);
        assert(walk_pattern_keys(env, node, schema, path, visited, i, 0) == Some(
            Seq::<Seq<char>>::empty(),
        ));
        assert(Seq::<Seq<char>>::empty() + Seq::<Seq<char>>::empty() =~= Seq::<Seq<char>>::empty());
    }
}

/// Walks along each `allOf` branch of the schema (see `walk_all_of`).
fn walk_all_of_section(
    ctx: &WalkContext,
    node: &Json,
    schema: &Json,
    path: &str,
    errors: &mut Vec<String>,
    visited: &Vec<String>,
) -> (r: Result<(), ReferenceCycle>)
    ensures
        recorded(
            old(errors).deep_view(),
            final(errors).deep_view(),
            walk_all_of(ctx.env(), *node, *schema, path@, visited.deep_view(), 0),
            r is Ok,
        ),
    decreases size(*node), unvisited(ctx.env().definitions, visited.deep_view()), size(*schema), 0nat, 0int, 0int,
{
    let ghost env = ctx.env();
    let ghost b = visited.deep_view();
    let ghost e0 = errors.deep_view();
    let branches = match schema.get_member("allOf") {
        Some(Json::Array(bs)) => bs,
        _ => {
            assert(e0 + Seq::<Seq<char>>::empty() =~= e0);
            return Ok(());
        },
    };
    let ghost mut added = Seq::<Seq<char>>::empty();
    assert(e0 + added =~= e0);
    let mut i: usize = 0;
    while i < branches.len()
        invariant
            i <= branches@.len(),
            schema_list(*schema, "allOf"@) == branches@,
            env == ctx.env(),
            b == visited.deep_view(),
            errors.deep_view() == e0 + added,
            e0 == old(errors).deep_view(),
            walk_all_of(env, *node, *schema, path@, b, 0) == join_errors(
                Some(added),
                walk_all_of(env, *node, *schema, path@, b, i as int),
            ),
        decreases branches.len() - i,
    {
        let sub = &branches[i];
        let ghost rest = walk_all_of(env, *node, *schema, path@, b, i + 1);
        let present = match sub.get_member("properties") {
            Some(Json::Object(names)) => first_present(node, names),
            _ => None,
        };
        let ghost w;
        let r = match present {
            Some(sub_node) => {
                proof {
                    lemma_first_present_smaller(*node, *sub);
                    w = walk(env, *sub_node, *sub, path@, Seq::empty());
                }
                walk_node(ctx, sub_node, sub, path, errors, &no_refs())
            },
            None => {
                proof {
                    lemma_schema_list_smaller(*schema, "allOf"@, i as int);
                    w = walk(env, *node, *sub, path@, b);
                }
                walk_node(ctx, node, sub, path, errors, visited)
            },
        };
        assert(walk_all_of(env, *node, *schema, path@, b, i as int) == join_errors(w, rest));
        match r {
            Err(e) => {
                proof {
                    lemma_extended_prefix(e0, added, errors.deep_view());
                }
                return Err(e);
            },
            Ok(()) => {},
        }
        proof {
            lemma_join_errors_assoc(added, w->0, rest);
            added = added + w->0;
            assert(errors.deep_view() =~= e0 + added);
        }
        i += 1;
    }
    assert(added + Seq::<Seq<char>>::empty() =~= added);
    Ok(())
}

/// Walks along each `oneOf` branch of the schema that fits the node.
fn walk_one_of_section(
    ctx: &WalkContext,
    node: &Json,
    schema: &Json,
    path: &str,
    errors: &mut Vec<String>,
    visited: &Vec<String>,
) -> (r: Result<(), ReferenceCycle>)
    ensures
        recorded(
            old(errors).deep_view(),
            final(errors).deep_view(),
            walk_one_of(ctx.env(), *node, *schema, path@, visited.deep_view(), 0),
            r is Ok,
        ),
    decreases size(*node), unvisited(ctx.env().definitions, visited.deep_view()), size(*schema), 0nat, 0int, 0int,
{
    let ghost env = ctx.env();
    let ghost b = visited.deep_view();
    let ghost e0 = errors.deep_view();
    let branches = match schema.get_member("oneOf") {
        Some(Json::Array(bs)) => bs,
        _ => {
            assert(e0 + Seq::<Seq<char>>::empty() =~= e0);
            return Ok(());
        },
    };
    let node_is_object = match node {
        Json::Object(_) => true,
        _ => false,
    };
    let ghost mut added = Seq::<Seq<char>>::empty();
    assert(e0 + added =~= e0);
    let mut i: usize = 0;
    while i < branches.len()
        invariant
            i <= branches@.len(),
            schema_list(*schema, "oneOf"@) == branches@,
            node_is_object == (*node is Object),
            env == ctx.env(),
            b == visited.deep_view(),
            errors.deep_view() == e0 + added,
            e0 == old(errors).deep_view(),
            walk_one_of(env, *node, *schema, path@, b, 0) == join_errors(
                Some(added),
                walk_one_of(env, *node, *schema, path@, b, i as int),
            ),
        decreases branches.len() - i,
    {
        let sub = &branches[i];
        let ghost rest = walk_one_of(env, *node, *schema, path@, b, i + 1);
        let skipped = match branch_type_of(ctx.definitions, sub) {
            Some(t) => (text_eq(t.as_str(), "string") && node_is_object) || (text_eq(
                t.as_str(),
                "object",
            ) && !node_is_object),
            None => false,
        };
        assert(skipped == branch_skipped(env, *sub, *node));
        if skipped {
            assert(walk_one_of(env, *node, *schema, path@, b, i as int) == rest);
        } else {
            proof {
                lemma_schema_list_smaller(*schema, "oneOf"@, i as int);
            }
            let ghost w = walk(env, *node, *sub, path@, b);
            assert(walk_one_of(env, *node, *schema, path@, b, i as int) == join_errors(w, rest));
            let r = walk_node(ctx, node, sub, path, errors, visited);
            match r {
                Err(e) => {
                    proof {
                        lemma_extended_prefix(e0, added, errors.deep_view());
                    }
                    return Err(e);
                },
                Ok(()) => {},
            }
            proof {
                lemma_join_errors_assoc(added, w->0, rest);
                added = added + w->0;
                assert(errors.deep_view() =~= e0 + added);
            }
        }
        i += 1;
    }
    assert(added + Seq::<Seq<char>>::empty() =~= added);
    Ok(())
}

/// Walks each member of an object node along an empty schema, which finds
/// nothing.
fn walk_nested_section(ctx: &WalkContext, node: &Json, path: &str, errors: &mut Vec<String>)
    ensures
        final(errors).deep_view() == old(errors).deep_view(),
    decreases size(*node), 0nat, 0nat, 0nat, 0int, 0int,
{
    let entries = match node {
        Json::Object(ms) => ms,
        _ => {
            return;
        },
    };
    let ghost e0 = errors.deep_view();
    let mut i: usize = 0;
    while i < entries.len()
        invariant
            i <= entries@.len(),
            size(*node) == 1 + size_members(entries@),
            errors.deep_view() == e0,
        decreases entries.len() - i,
    {
        let empty = Json::Object(Vec::new());
        proof {
            lemma_member_value_smaller(entries@, i as int);
            let p = member_path(path@, entries@[i as int].0@);
            assert forall|k: Seq<char>| #[trigger] member(empty, k) is None by {}
            lemma_walk_memberless(ctx.env(), entries@[i as int].1, empty, p, Seq::empty());
        }
        let p = join_member_path(path, entries[i].0.as_str());
        let r = walk_node(ctx, &entries[i].1, &empty, p.as_str(), errors, &no_refs());
        assert(errors.deep_view() =~= e0);
        i += 1;
    }
}

/// Walks `node` along `schema_node` at `path`, appending to `errors` the
/// errors of every semantic validator met at a `$ref` (see `walk`);
/// `schema_definitions` are the schema's definitions, each under its ref
/// (`#/definitions/name`). An error, and the errors found so far, where
/// a `$ref` chain on one node comes back to a ref it followed.
pub fn walk_schema_and_validate(
    node: &Json,
    schema_node: &Json,
    root: &Json,
    registry: &FileRegistry,
    path: &str,
    errors: &mut Vec<String>,
    schema_definitions: &Vec<(String, Json)>,
    semantic_validators: &Vec<(String, SemanticValidator)>,
    verbose: u8,
) -> (r: Result<(), ReferenceCycle>)
    ensures
        recorded(
            old(errors).deep_view(),
            final(errors).deep_view(),
            walk(
                WalkEnv {
                    root: *root,
                    files: registry@,
                    definitions: definition_keys(schema_definitions@),
                    validators: validator_keys(semantic_validators@),
                    verbose,
                },
                *node,
                *schema_node,
                path@,
                Seq::empty(),
            ),
            r is Ok,
        ),
{
    let mut definitions: Vec<(String, &Json)> = Vec::new();
    let mut i: usize = 0;
    while i < schema_definitions.len()
        invariant
            i <= schema_definitions@.len(),
            definitions@.len() == i,
            borrowed_definition_keys(definitions@) =~= definition_keys(schema_definitions@).take(
                i as int,
            ),
        decreases schema_definitions.len() - i,
    {
        let key = schema_definitions[i].0.clone();
        let ghost before = definitions@;
        definitions.push((key, &schema_definitions[i].1));
        proof {
            assert forall|k: int| 0 <= k <= i implies #[trigger] borrowed_definition_keys(
                definitions@,
            )[k] == definition_keys(schema_definitions@)[k] by {
                if k < i {
                    assert(definitions@[k] == before[k]);
                    assert(borrowed_definition_keys(before)[k] == definition_keys(
                        schema_definitions@,
                    ).take(i as int)[k]);
                }
            }
        }
        i += 1;
    }
    assert(definition_keys(schema_definitions@).take(i as int) =~= definition_keys(
        schema_definitions@,
    ));
    let ctx = WalkContext {
        root,
        registry,
        definitions: &definitions,
        validators: semantic_validators,
        verbose,
    };
    walk_node(&ctx, node, schema_node, path, errors, &no_refs())
}

/// The members of the schema's `definitions`, borrowed, each under its ref.
fn definitions_by_ref(table: &Vec<(String, Json)>) -> (r: Vec<(String, &Json)>)
    ensures
        borrowed_definition_keys(r@) == schema_definition_refs(table@),
{
    let mut definitions: Vec<(String, &Json)> = Vec::new();
    let mut i: usize = 0;
    proof {
        reveal_strlit("#/definitions/");
    }
    while i < table.len()
        invariant
            i <= table@.len(),
            definitions@.len() == i,
            borrowed_definition_keys(definitions@) =~= schema_definition_refs(table@).take(i as int),
            "#/definitions/"@ == definitions_prefix(),
        decreases table.len() - i,
    {
        let mut full = String::from_str("#/definitions/");
        full.append(table[i].0.as_str());
        let ghost before = definitions@;
        definitions.push((full, &table[i].1));
        proof {
            assert forall|k: int| 0 <= k <= i implies #[trigger] borrowed_definition_keys(
                definitions@,
            )[k] == schema_definition_refs(table@)[k] by {
                if k < i {
                    assert(definitions@[k] == before[k]);
                    assert(borrowed_definition_keys(before)[k] == schema_definition_refs(
                        table@,
                    ).take(i as int)[k]);
                }
            }
        }
        i += 1;
    }
    assert(schema_definition_refs(table@).take(i as int) =~= schema_definition_refs(table@));
    definitions
}

/// The environment of the semantic checks of `root` against `schema`.
pub open spec fn semantic_env(root: Json, files: Seq<(String, Json)>, schema: Json, verbose: u8) -> WalkEnv {
    WalkEnv {
        root,
        files,
        definitions: schema_definition_refs(schema_table(schema, "definitions"@)),
        validators: seq![("#/definitions/bindingId"@, SemanticValidator::BindingRef)],
        verbose,
    }
}

/// The walks of the root's members named by the schema's `properties`
/// `i..`, each at the member's name.
pub open spec fn root_properties(env: WalkEnv, schema: Json, i: int) -> Option<Seq<Seq<char>>>
    decreases schema_table(schema, "properties"@).len() - i,
{
    let props = schema_table(schema, "properties"@);
    if i < 0 || i >= props.len() {
        Some(Seq::empty())
    } else {
        let rest = root_properties(env, schema, i + 1);
        match member(env.root, props[i].0@) {
            Some(value) => join_errors(
                walk(env, value, props[i].1, props[i].0@, Seq::empty()),
                rest,
            ),
            None => rest,
        }
    }
}

/// The walks of the whole root along the schema's `allOf` branches `i..`.
pub open spec fn root_all_of(env: WalkEnv, schema: Json, i: int) -> Option<Seq<Seq<char>>>
    decreases schema_list(schema, "allOf"@).len() - i,
{
    let branches = schema_list(schema, "allOf"@);
    if i < 0 || i >= branches.len() {
        Some(Seq::empty())
    } else {
        join_errors(
            walk(env, env.root, branches[i], Seq::empty(), Seq::empty()),
            root_all_of(env, schema, i + 1),
        )
    }
}

/// The semantic errors of document `root` against `schema` with the
/// registry's files: those of the root's members that the schema's
/// `properties` describe, then those of the root along the schema's
/// `allOf`. Nothing where a walk, on one node, meets again a `$ref` that it
/// followed on that node (see `walk`): such a chain of `$ref`s never ends.
pub open spec fn semantic_errors(root: Json, files: Seq<(String, Json)>, schema: Json, verbose: u8) -> Option<
    Seq<Seq<char>>,
> {
    let env = semantic_env(root, files, schema, verbose);
    join_errors(root_properties(env, schema, 0), root_all_of(env, schema, 0))
}

/// Checks the references of document `root` against `schema`: every
/// `bindingId` it holds where the schema expects one must be a binding the
/// root can refer to. The messages come in walk order; an error exactly
/// where a chain of `$ref`s on one node comes back to a ref it followed,
/// and so would be followed forever.
pub fn validate_semantics(root: &Json, registry: &FileRegistry, schema: &Json, verbose: u8) -> (r: Result<
    Vec<String>,
    ReferenceCycle,
>)
    ensures
        r is Ok == semantic_errors(*root, registry@, *schema, verbose) is Some,
        r matches Ok(errors) ==> errors.deep_view() == semantic_errors(
            *root,
            registry@,
            *schema,
            verbose,
        )->0,
{
    let no_definitions: Vec<(String, Json)> = Vec::new();
    let table = match schema.get_member("definitions") {
        Some(Json::Object(defs)) => defs,
        _ => &no_definitions,
    };
    assert(table@ =~= schema_table(*schema, "definitions"@));
    let definitions = definitions_by_ref(table);
    let semantic_validators = register_semantic_validators();
    let ghost env = semantic_env(*root, registry@, *schema, verbose);
    assert(validator_keys(semantic_validators@) =~= env.validators);
    assert(borrowed_definition_keys(definitions@) == env.definitions);
    let ctx = WalkContext {
        root,
        registry,
        definitions: &definitions,
        validators: &semantic_validators,
        verbose,
    };
    assert(ctx.env() == env);
    let mut errors: Vec<String> = Vec::new();
    let ghost e0 = errors.deep_view();
    assert(e0 =~= Seq::<Seq<char>>::empty());
    let ghost mut added = Seq::<Seq<char>>::empty();
    match schema.get_member("properties") {
        Some(Json::Object(props)) => {
            let mut i: usize = 0;
            while i < props.len()
                invariant
                    i <= props@.len(),
                    schema_table(*schema, "properties"@) == props@,
                    env == ctx.env(),
                    env.root == *root,
                    borrowed_definition_keys(definitions@) == env.definitions,
                    semantic_errors(*root, registry@, *schema, verbose) == join_errors(
                        root_properties(env, *schema, 0),
                        root_all_of(env, *schema, 0),
                    ),
                    errors.deep_view() == e0 + added,
                    root_properties(env, *schema, 0) == join_errors(
                        Some(added),
                        root_properties(env, *schema, i as int),
                    ),
                decreases props.len() - i,
            {
                let ghost rest = root_properties(env, *schema, i + 1);
                match root.get_member(props[i].0.as_str()) {
                    Some(value) => {
                        let ghost w = walk(
                            env,
                            *value,
                            props@[i as int].1,
                            props@[i as int].0@,
                            Seq::empty(),
                        );
                        assert(root_properties(env, *schema, i as int) == join_errors(w, rest));
                        let r = walk_node(
                            &ctx,
                            value,
                            &props[i].1,
                            props[i].0.as_str(),
                            &mut errors,
                            &no_refs(),
                        );
                        match r {
                            Err(e) => {
                                return Err(e);
                            },
                            Ok(()) => {},
                        }
                        proof {
                            lemma_join_errors_assoc(added, w->0, rest);
                            added = added + w->0;
                            assert(errors.deep_view() =~= e0 + added);
                        }
                    },
                    None => {
                        assert(root_properties(env, *schema, i as int) == rest);
                    },
                }
                i += 1;
            }
        },
        _ => {},
    }
    assert(added + Seq::<Seq<char>>::empty() =~= added);
    assert(root_properties(env, *schema, 0) == Some(added));
    let ghost first = added;
    match schema.get_member("allOf") {
        Some(Json::Array(branches)) => {
            proof {
                reveal_strlit("");
                assert(""@ =~= Seq::<char>::empty());
            }
            let mut i: usize = 0;
            while i < branches.len()
                invariant
                    i <= branches@.len(),
                    schema_list(*schema, "allOf"@) == branches@,
                    env == ctx.env(),
                    env.root == *root,
                    borrowed_definition_keys(definitions@) == env.definitions,
                    semantic_errors(*root, registry@, *schema, verbose) == join_errors(
                        root_properties(env, *schema, 0),
                        root_all_of(env, *schema, 0),
                    ),
                    root_properties(env, *schema, 0) == Some(first),
                    ""@ == Seq::<char>::empty(),
                    first.is_prefix_of(added),
                    errors.deep_view() == e0 + added,
                    root_all_of(env, *schema, 0) == join_errors(
                        Some(added.skip(first.len() as int)),
                        root_all_of(env, *schema, i as int),
                    ),
                decreases branches.len() - i,
            {
                let ghost rest = root_all_of(env, *schema, i + 1);
                let ghost w = walk(env, *root, branches@[i as int], Seq::empty(), Seq::empty());
                assert(root_all_of(env, *schema, i as int) == join_errors(w, rest));
                let r = walk_node(&ctx, root, &branches[i], "", &mut errors, &no_refs());
                match r {
                    Err(e) => {
                        return Err(e);
                    },
                    Ok(()) => {},
                }
                proof {
                    lemma_join_errors_assoc(added.skip(first.len() as int), w->0, rest);
                    assert(added.skip(first.len() as int) + w->0 =~= (added + w->0).skip(
                        first.len() as int,
                    ));
                    added = added + w->0;
                    assert(errors.deep_view() =~= e0 + added);
                }
                i += 1;
            }
        },
        _ => {
            assert(added.skip(first.len() as int) =~= Seq::<Seq<char>>::empty());
        },
    }
    proof {
        assert(added.skip(first.len() as int) + Seq::<Seq<char>>::empty() =~= added.skip(first.len() as int));
        assert(first + added.skip(first.len() as int) =~= added);
    }
    Ok(errors)
}

proof fn lemma_array_items_any_refs(
    env: WalkEnv,
    node: Json,
    schema: Json,
    path: Seq<char>,
    v1: Seq<Seq<char>>,
    v2: Seq<Seq<char>>,
    i: int,
)
    ensures
        walk_array_items(env, node, schema, path, v1, i) == walk_array_items(env, node, schema, path, v2, i),
    decreases items_of(node).len() - i,
{
    if 0 <= i < items_of(node).len() {
        lemma_array_items_any_refs(env, node, schema, path, v1, v2, i + 1);
    }
}

proof fn lemma_properties_any_refs(
    env: WalkEnv,
    node: Json,
    schema: Json,
    path: Seq<char>,
    v1: Seq<Seq<char>>,
    v2: Seq<Seq<char>>,
    i: int,
)
    ensures
        walk_properties(env, node, schema, path, v1, i) == walk_properties(env, node, schema, path, v2, i),
    decreases schema_table(schema, "properties"@).len() - i,
{
    if 0 <= i < schema_table(schema, "properties"@).len() {
        lemma_properties_any_refs(env, node, schema, path, v1, v2, i + 1);
    }
}

proof fn lemma_additional_any_refs(
    env: WalkEnv,
    node: Json,
    schema: Json,
    path: Seq<char>,
    v1: Seq<Seq<char>>,
    v2: Seq<Seq<char>>,
    i: int,
)
    ensures
        walk_additional(env, node, schema, path, v1, i) == walk_additional(env, node, schema, path, v2, i),
    decreases members_of(node).len() - i,
{
    if 0 <= i < members_of(node).len() {
        lemma_additional_any_refs(env, node, schema, path, v1, v2, i + 1);
    }
}

proof fn lemma_pattern_keys_any_refs(
    env: WalkEnv,
    node: Json,
    schema: Json,
    path: Seq<char>,
    v1: Seq<Seq<char>>,
    v2: Seq<Seq<char>>,
    i: int,
    k: int,
)
    ensures
        walk_pattern_keys(env, node, schema, path, v1, i, k) == walk_pattern_keys(
            env,
            node,
            schema,
            path,
            v2,
            i,
            k,
        ),
    decreases members_of(node).len() - k,
{
    if 0 <= k < members_of(node).len() {
        lemma_pattern_keys_any_refs(env, node, schema, path, v1, v2, i, k + 1);
    }
}

proof fn lemma_patterns_any_refs(
    env: WalkEnv,
    node: Json,
    schema: Json,
    path: Seq<char>,
    v1: Seq<Seq<char>>,
    v2: Seq<Seq<char>>,
    i: int,
)
    ensures
        walk_patterns(env, node, schema, path, v1, i) == walk_patterns(env, node, schema, path, v2, i),
    decreases schema_table(schema, "patternProperties"@).len() - i,
{
    if 0 <= i < schema_table(schema, "patternProperties"@).len() {
        lemma_patterns_any_refs(env, node, schema, path, v1, v2, i + 1);
        lemma_pattern_keys_any_refs(env, node, schema, path, v1, v2, i, 0);
    }
}

/// Every ref of `fewer` is among `more`.
pub open spec fn refs_within(fewer: Seq<Seq<char>>, more: Seq<Seq<char>>) -> bool {
    forall|k: Seq<char>| #[trigger] fewer.contains(k) ==> more.contains(k)
}

proof fn lemma_refs_within_push(fewer: Seq<Seq<char>>, more: Seq<Seq<char>>, key: Seq<char>)
    requires
        refs_within(fewer, more),
    ensures
        refs_within(fewer.push(key), more.push(key)),
{
    assert forall|k: Seq<char>| #[trigger] fewer.push(key).contains(k) implies more.push(key).contains(
        k,
    ) by {
        let i = choose|i: int| 0 <= i < fewer.push(key).len() && fewer.push(key)[i] == k;
        if i < fewer.len() {
            assert(fewer[i] == k);
            assert(fewer.contains(k));
            let j = choose|j: int| 0 <= j < more.len() && more[j] == k;
            assert(more.push(key)[j] == k);
        } else {
            assert(more.push(key)[more.len() as int] == k);
        }
    }
}

/// The refs already followed on a node decide only whether a walk ends: a
/// walk that ends finds the same errors where only some of them were
/// followed.
pub proof fn lemma_walk_fewer_refs(
    env: WalkEnv,
    node: Json,
    schema: Json,
    path: Seq<char>,
    visited: Seq<Seq<char>>,
    fewer: Seq<Seq<char>>,
)
    requires
        walk(env, node, schema, path, visited) is Some,
        refs_within(fewer, visited),
    ensures
        walk(env, node, schema, path, fewer) == walk(env, node, schema, path, visited),
    decreases size(node), unvisited(env.definitions, visited), size(schema), 2nat, 0int, 0int,
{
    match node {
        Json::Array(_) => {
            lemma_array_items_any_refs(env, node, schema, path, visited, fewer, 0);
        },
        _ => match ref_target(env, schema) {
            Some((key, definition)) => {
                assert(!fewer.contains(key));
                lemma_unvisited_decreases(env.definitions, visited, key);
                lemma_refs_within_push(fewer, visited, key);
                lemma_walk_fewer_refs(env, node, definition, path, visited.push(key), fewer.push(key));
            },
            None => {
                lemma_object_fewer_refs(env, node, schema, path, visited, fewer);
            },
        },
    }
}

proof fn lemma_object_fewer_refs(
    env: WalkEnv,
    node: Json,
    schema: Json,
    path: Seq<char>,
    visited: Seq<Seq<char>>,
    fewer: Seq<Seq<char>>,
)
    requires
        walk_object(env, node, schema, path, visited) is Some,
        refs_within(fewer, visited),
    ensures
        walk_object(env, node, schema, path, fewer) == walk_object(env, node, schema, path, visited),
    decreases size(node), unvisited(env.definitions, visited), size(schema), 1nat, 0int, 0int,
{
    if node is Object {
        lemma_properties_any_refs(env, node, schema, path, visited, fewer, 0);
        lemma_additional_any_refs(env, node, schema, path, visited, fewer, 0);
        lemma_patterns_any_refs(env, node, schema, path, visited, fewer, 0);
        if let Some(items_schema) = member(schema, "items"@) {
            lemma_member_smaller(schema, "items"@);
            if walk(env, node, items_schema, item_path(path, 0), visited) is Some {
                lemma_walk_fewer_refs(env, node, items_schema, item_path(path, 0), visited, fewer);
            }
        }
        if walk_all_of(env, node, schema, path, visited, 0) is Some {
            lemma_all_of_fewer_refs(env, node, schema, path, visited, fewer, 0);
        }
        if walk_one_of(env, node, schema, path, visited, 0) is Some {
            lemma_one_of_fewer_refs(env, node, schema, path, visited, fewer, 0);
        }
    }
}

proof fn lemma_all_of_fewer_refs(
    env: WalkEnv,
    node: Json,
    schema: Json,
    path: Seq<char>,
    visited: Seq<Seq<char>>,
    fewer: Seq<Seq<char>>,
    i: int,
)
    requires
        walk_all_of(env, node, schema, path, visited, i) is Some,
        refs_within(fewer, visited),
    ensures
        walk_all_of(env, node, schema, path, fewer, i) == walk_all_of(env, node, schema, path, visited, i),
    decreases size(node), unvisited(env.definitions, visited), size(schema), 0nat, schema_list(
        schema,
        "allOf"@,
    ).len() - i, 0int,
{
    let branches = schema_list(schema, "allOf"@);
    if 0 <= i < branches.len() {
        let sub = branches[i];
        lemma_all_of_fewer_refs(env, node, schema, path, visited, fewer, i + 1);
        let present = match member(sub, "properties"@) {
            Some(Json::Object(names)) => first_present_member(node, names@),
            _ => None,
        };
        if present is None {
            lemma_schema_list_smaller(schema, "allOf"@, i);
            lemma_walk_fewer_refs(env, node, sub, path, visited, fewer);
        }
    }
}

proof fn lemma_one_of_fewer_refs(
    env: WalkEnv,
    node: Json,
    schema: Json,
    path: Seq<char>,
    visited: Seq<Seq<char>>,
    fewer: Seq<Seq<char>>,
    i: int,
)
    requires
        walk_one_of(env, node, schema, path, visited, i) is Some,
        refs_within(fewer, visited),
    ensures
        walk_one_of(env, node, schema, path, fewer, i) == walk_one_of(env, node, schema, path, visited, i),
    decreases size(node), unvisited(env.definitions, visited), size(schema), 0nat, schema_list(
        schema,
        "oneOf"@,
    ).len() - i, 0int,
{
    let branches = schema_list(schema, "oneOf"@);
    if 0 <= i < branches.len() {
        lemma_one_of_fewer_refs(env, node, schema, path, visited, fewer, i + 1);
        if !branch_skipped(env, branches[i], node) {
            lemma_schema_list_smaller(schema, "oneOf"@, i);
            lemma_walk_fewer_refs(env, node, branches[i], path, visited, fewer);
        }
    }
}

} // verus!
