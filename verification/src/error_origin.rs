use vstd::prelude::*;
use vstd::string::*;

use crate::bindings::{binding_ref_errors, lemma_binding_ref_error_shape, resolved_bindings};
use crate::json::{
    holds_text, lemma_item_smaller, lemma_item_text_held, lemma_member_smaller,
    lemma_member_text_held, lemma_member_value_smaller, lemma_member_value_text_held, member,
    members_get, members_of, size, Json,
};
use crate::pattern::pattern_compiles;
use crate::text::{
    item_path, lemma_prefix_trans, lemma_within_item_path, lemma_within_member_path, member_path,
    within_path,
};
use crate::walk::{
    branch_skipped, definition_for, lemma_unvisited_decreases, unvisited, definitions_prefix, first_present_member, items_of, join_errors,
    lemma_first_present_smaller, lemma_schema_list_smaller, ref_target, root_all_of, root_properties,
    schema_definition_refs, schema_list, schema_table, semantic_env, semantic_errors, validator_errors, validator_for, walk,
    walk_additional, walk_all_of, walk_array_items, walk_object, walk_one_of, walk_pattern_keys,
    walk_patterns, walk_properties, SemanticValidator, WalkEnv,
};

verus! {

/// Error `e` of a walk of `node` at `path` comes from the check of the
/// string `id`, which `node` holds, at a path `p` within `path`, through a
/// `$ref` `key` that names a definition and has the `bindingId` validator.
pub open spec fn error_from(
    env: WalkEnv,
    node: Json,
    path: Seq<char>,
    e: Seq<char>,
    key: Seq<char>,
    id: Seq<char>,
    p: Seq<char>,
) -> bool {
    &&& validator_for(env.validators, key) == Some(SemanticValidator::BindingRef)
    &&& definition_for(env.definitions, key) is Some
    &&& holds_text(node, id)
    &&& within_path(p, path)
    &&& binding_ref_errors(p, id, resolved_bindings(env.root, env.files, true), env.verbose).contains(e)
}

/// Error `e` comes from such a check.
pub open spec fn error_explained(env: WalkEnv, node: Json, path: Seq<char>, e: Seq<char>) -> bool {
    exists|key: Seq<char>, id: Seq<char>, p: Seq<char>| #[trigger] error_from(env, node, path, e, key, id, p)
}

/// Every error of `out`, where it holds errors, comes from such a check.
pub open spec fn explained(env: WalkEnv, node: Json, path: Seq<char>, out: Option<Seq<Seq<char>>>) -> bool {
    out matches Some(es) ==> forall|k: int| 0 <= k < es.len() ==> #[trigger] error_explained(env, node, path, es[k])
}

proof fn lemma_explained_join(
    env: WalkEnv,
    node: Json,
    path: Seq<char>,
    a: Option<Seq<Seq<char>>>,
    b: Option<Seq<Seq<char>>>,
)
    requires
        explained(env, node, path, a),
        explained(env, node, path, b),
    ensures
        explained(env, node, path, join_errors(a, b)),
{
    if let (Some(x), Some(y)) = (a, b) {
        assert forall|k: int| 0 <= k < (x + y).len() implies error_explained(env, node, path, (x + y)[k]) by {
            if k < x.len() {
                assert((x + y)[k] == x[k]);
            } else {
                assert((x + y)[k] == y[k - x.len()]);
            }
        }
    }
}

/// What is explained for a part of a node at a path below is explained for
/// the node at its own path.
proof fn lemma_explained_lift(
    env: WalkEnv,
    child: Json,
    child_path: Seq<char>,
    node: Json,
    path: Seq<char>,
    out: Option<Seq<Seq<char>>>,
)
    requires
        explained(env, child, child_path, out),
        forall|t: Seq<char>| #[trigger] holds_text(child, t) ==> holds_text(node, t),
        forall|p: Seq<char>| #[trigger] within_path(p, child_path) ==> within_path(p, path),
    ensures
        explained(env, node, path, out),
{
    if let Some(es) = out {
        assert forall|k: int| 0 <= k < es.len() implies error_explained(env, node, path, es[k]) by {
            assert(error_explained(env, child, child_path, es[k]));
            let (key, id, p) = choose|key: Seq<char>, id: Seq<char>, p: Seq<char>|
                #[trigger] error_from(env, child, child_path, es[k], key, id, p);
            assert(error_from(env, node, path, es[k], key, id, p));
        }
    }
}

/// The walk of a member's value at the member's path, explained for the
/// object at its own path.
proof fn lemma_explained_member(
    env: WalkEnv,
    node: Json,
    path: Seq<char>,
    key: Seq<char>,
    i: int,
    out: Option<Seq<Seq<char>>>,
)
    requires
        0 <= i < members_of(node).len(),
        explained(env, members_of(node)[i].1, member_path(path, key), out),
    ensures
        explained(env, node, path, out),
{
    let child = members_of(node)[i].1;
    assert forall|t: Seq<char>| #[trigger] holds_text(child, t) implies holds_text(node, t) by {
        lemma_member_value_text_held(node, i, t);
    }
    assert forall|p: Seq<char>| #[trigger] within_path(p, member_path(path, key)) implies within_path(
        p,
        path,
    ) by {
        lemma_within_member_path(p, path, key);
    }
    lemma_explained_lift(env, child, member_path(path, key), node, path, out);
}

proof fn lemma_first_present_text_held(node: Json, names: Seq<(String, Json)>, t: Seq<char>)
    requires
        first_present_member(node, names) matches Some(v) && holds_text(v, t),
    ensures
        holds_text(node, t),
    decreases names.len(),
{
    if member(node, names[0].0@) is Some {
        lemma_member_text_held(node, names[0].0@, t);
    } else {
        lemma_first_present_text_held(node, names.drop_first(), t);
    }
}

/// Every error of a walk comes from the `bindingId` check of a string that
/// the walked node holds, at a path within the walk's path, through a
/// `$ref` that names a definition and has that validator registered.
pub proof fn lemma_walk_explained(env: WalkEnv, node: Json, schema: Json, path: Seq<char>, visited: Seq<Seq<char>>)
    ensures
        explained(env, node, path, walk(env, node, schema, path, visited)),
    decreases size(node), unvisited(env.definitions, visited), size(schema), 2nat, 0int, 0int,
{
    match node {
        Json::Array(_) => {
            if member(schema, "items"@) is Some {
                lemma_array_items_explained(env, node, schema, path, visited, 0);
            }
        },
        _ => match ref_target(env, schema) {
            Some((key, definition)) => {
                if !visited.contains(key) {
                    lemma_unvisited_decreases(env.definitions, visited, key);
                    lemma_walk_explained(env, node, definition, path, visited.push(key));
                    let v = validator_errors(env, key, node, path);
                    if let Json::Str(id) = node {
                        assert forall|k: int| 0 <= k < v.len() implies error_explained(env, node, path, v[k]) by {
                            assert(v.contains(v[k]));
                            assert(validator_for(env.validators, key) == Some(
                                SemanticValidator::BindingRef,
                            ));
                            assert(error_from(env, node, path, v[k], key, id@, path));
                        }
                    }
                    assert(explained(env, node, path, Some(v)));
                    lemma_explained_join(
                        env,
                        node,
                        path,
                        Some(v),
                        walk(env, node, definition, path, visited.push(key)),
                    );
                }
            },
            None => {
                lemma_object_explained(env, node, schema, path, visited);
            },
        },
    }
}

proof fn lemma_object_explained(env: WalkEnv, node: Json, schema: Json, path: Seq<char>, visited: Seq<Seq<char>>)
    ensures
        explained(env, node, path, walk_object(env, node, schema, path, visited)),
    decreases size(node), unvisited(env.definitions, visited), size(schema), 1nat, 0int, 0int,
{
    if node is Object {
        let items = match member(schema, "items"@) {
            Some(items_schema) => walk(env, node, items_schema, item_path(path, 0), visited),
            None => Some(Seq::empty()),
        };
        if let Some(items_schema) = member(schema, "items"@) {
            lemma_member_smaller(schema, "items"@);
            lemma_walk_explained(env, node, items_schema, item_path(path, 0), visited);
            assert forall|p: Seq<char>| #[trigger] within_path(p, item_path(path, 0)) implies within_path(
                p,
                path,
            ) by {
                lemma_within_item_path(p, path, 0);
            }
            lemma_explained_lift(env, node, item_path(path, 0), node, path, items);
        }
        let properties = walk_properties(env, node, schema, path, visited, 0);
        let additional = walk_additional(env, node, schema, path, visited, 0);
        let patterns = walk_patterns(env, node, schema, path, visited, 0);
        let all_of = walk_all_of(env, node, schema, path, visited, 0);
        let one_of = walk_one_of(env, node, schema, path, visited, 0);
        lemma_properties_explained(env, node, schema, path, visited, 0);
        lemma_additional_explained(env, node, schema, path, visited, 0);
        lemma_patterns_explained(env, node, schema, path, visited, 0);
        lemma_all_of_explained(env, node, schema, path, visited, 0);
        lemma_one_of_explained(env, node, schema, path, visited, 0);
        lemma_explained_join(env, node, path, properties, additional);
        lemma_explained_join(env, node, path, join_errors(properties, additional), patterns);
        lemma_explained_join(
            env,
            node,
            path,
            join_errors(join_errors(properties, additional), patterns),
            items,
        );
        lemma_explained_join(
            env,
            node,
            path,
            join_errors(join_errors(join_errors(properties, additional), patterns), items),
            all_of,
        );
        lemma_explained_join(
            env,
            node,
            path,
            join_errors(
                join_errors(join_errors(join_errors(properties, additional), patterns), items),
                all_of,
            ),
            one_of,
        );
    }
}

proof fn lemma_array_items_explained(
    env: WalkEnv,
    node: Json,
    schema: Json,
    path: Seq<char>,
    visited: Seq<Seq<char>>,
    i: int,
)
    ensures
        explained(env, node, path, walk_array_items(env, node, schema, path, visited, i)),
    decreases size(node), unvisited(env.definitions, visited), size(schema), 0nat, items_of(node).len() - i, 0int,
{
    if 0 <= i < items_of(node).len() {
        if let Some(items_schema) = member(schema, "items"@) {
            let item = items_of(node)[i];
            let ipath = item_path(path, i as nat);
            let w = walk(env, item, items_schema, ipath, Seq::empty());
            lemma_item_smaller(items_of(node), i);
            lemma_walk_explained(env, item, items_schema, ipath, Seq::empty());
            assert forall|t: Seq<char>| #[trigger] holds_text(item, t) implies holds_text(node, t) by {
                lemma_item_text_held(node, i, t);
            }
            assert forall|p: Seq<char>| #[trigger] within_path(p, ipath) implies within_path(p, path) by {
                lemma_within_item_path(p, path, i as nat);
            }
            lemma_explained_lift(env, item, ipath, node, path, w);
            lemma_array_items_explained(env, node, schema, path, visited, i + 1);
            lemma_explained_join(
                env,
                node,
                path,
                w,
                walk_array_items(env, node, schema, path, visited, i + 1),
            );
        }
    }
}

proof fn lemma_properties_explained(
    env: WalkEnv,
    node: Json,
    schema: Json,
    path: Seq<char>,
    visited: Seq<Seq<char>>,
    i: int,
)
    ensures
        explained(env, node, path, walk_properties(env, node, schema, path, visited, i)),
    decreases size(node), unvisited(env.definitions, visited), size(schema), 0nat, schema_table(schema, "properties"@).len() - i, 0int,
{
    let props = schema_table(schema, "properties"@);
    if 0 <= i < props.len() {
        lemma_properties_explained(env, node, schema, path, visited, i + 1);
        let rest = walk_properties(env, node, schema, path, visited, i + 1);
        let key = props[i].0@;
        if let Some(child) = member(node, key) {
            lemma_member_smaller(node, key);
            let cpath = member_path(path, key);
            let w = walk(env, child, props[i].1, cpath, Seq::empty());
            lemma_walk_explained(env, child, props[i].1, cpath, Seq::empty());
            assert forall|t: Seq<char>| #[trigger] holds_text(child, t) implies holds_text(node, t) by {
                lemma_member_text_held(node, key, t);
            }
            assert forall|p: Seq<char>| #[trigger] within_path(p, cpath) implies within_path(p, path) by {
                lemma_within_member_path(p, path, key);
            }
            lemma_explained_lift(env, child, cpath, node, path, w);
            lemma_explained_join(env, node, path, w, rest);
        }
    }
}

proof fn lemma_additional_explained(
    env: WalkEnv,
    node: Json,
    schema: Json,
    path: Seq<char>,
    visited: Seq<Seq<char>>,
    i: int,
)
    ensures
        explained(env, node, path, walk_additional(env, node, schema, path, visited, i)),
    decreases size(node), unvisited(env.definitions, visited), size(schema), 0nat, members_of(node).len() - i, 0int,
{
    let entries = members_of(node);
    if 0 <= i < entries.len() {
        if let Some(additional) = member(schema, "additionalProperties"@) {
            lemma_additional_explained(env, node, schema, path, visited, i + 1);
            let rest = walk_additional(env, node, schema, path, visited, i + 1);
            if !(entries[i].0@.len() > 0 && entries[i].0@[0] == '$') {
                lemma_member_value_smaller(entries, i);
                let cpath = member_path(path, entries[i].0@);
                let w = walk(env, entries[i].1, additional, cpath, Seq::empty());
                lemma_walk_explained(env, entries[i].1, additional, cpath, Seq::empty());
                lemma_explained_member(env, node, path, entries[i].0@, i, w);
                lemma_explained_join(env, node, path, w, rest);
            }
        }
    }
}

proof fn lemma_patterns_explained(
    env: WalkEnv,
    node: Json,
    schema: Json,
    path: Seq<char>,
    visited: Seq<Seq<char>>,
    i: int,
)
    ensures
        explained(env, node, path, walk_patterns(env, node, schema, path, visited, i)),
    decreases size(node), unvisited(env.definitions, visited), size(schema), 0nat, schema_table(
        schema,
        "patternProperties"@,
    ).len() - i, members_of(node).len() + 1,
{
    let patterns = schema_table(schema, "patternProperties"@);
    if 0 <= i < patterns.len() {
        lemma_patterns_explained(env, node, schema, path, visited, i + 1);
        if pattern_compiles(patterns[i].0@) {
            lemma_pattern_keys_explained(env, node, schema, path, visited, i, 0);
            lemma_explained_join(
                env,
                node,
                path,
                walk_pattern_keys(env, node, schema, path, visited, i, 0),
                walk_patterns(env, node, schema, path, visited, i + 1),
            );
        }
    }
}

proof fn lemma_pattern_keys_explained(
    env: WalkEnv,
    node: Json,
    schema: Json,
    path: Seq<char>,
    visited: Seq<Seq<char>>,
    i: int,
    k: int,
)
    ensures
        explained(env, node, path, walk_pattern_keys(env, node, schema, path, visited, i, k)),
    decreases size(node), unvisited(env.definitions, visited), size(schema), 0nat, schema_table(
        schema,
        "patternProperties"@,
    ).len() - i, members_of(node).len() - k,
{
    let patterns = schema_table(schema, "patternProperties"@);
    let entries = members_of(node);
    if 0 <= i < patterns.len() && 0 <= k < entries.len() {
        lemma_pattern_keys_explained(env, node, schema, path, visited, i, k + 1);
        let rest = walk_pattern_keys(env, node, schema, path, visited, i, k + 1);
        lemma_member_value_smaller(entries, k);
        let cpath = member_path(path, entries[k].0@);
        let w = walk(env, entries[k].1, patterns[i].1, cpath, Seq::empty());
        lemma_walk_explained(env, entries[k].1, patterns[i].1, cpath, Seq::empty());
        lemma_explained_member(env, node, path, entries[k].0@, k, w);
        lemma_explained_join(env, node, path, w, rest);
    }
}

proof fn lemma_all_of_explained(
    env: WalkEnv,
    node: Json,
    schema: Json,
    path: Seq<char>,
    visited: Seq<Seq<char>>,
    i: int,
)
    ensures
        explained(env, node, path, walk_all_of(env, node, schema, path, visited, i)),
    decreases size(node), unvisited(env.definitions, visited), size(schema), 0nat, schema_list(schema, "allOf"@).len() - i, 0int,
{
    let branches = schema_list(schema, "allOf"@);
    if 0 <= i < branches.len() {
        let sub = branches[i];
        lemma_all_of_explained(env, node, schema, path, visited, i + 1);
        let rest = walk_all_of(env, node, schema, path, visited, i + 1);
        let present = match member(sub, "properties"@) {
            Some(Json::Object(names)) => first_present_member(node, names@),
            _ => None,
        };
        match present {
            Some(sub_node) => {
                lemma_first_present_smaller(node, sub);
                let w = walk(env, sub_node, sub, path, Seq::empty());
                lemma_walk_explained(env, sub_node, sub, path, Seq::empty());
                assert forall|t: Seq<char>| #[trigger] holds_text(sub_node, t) implies holds_text(
                    node,
                    t,
                ) by {
                    if let Some(Json::Object(names)) = member(sub, "properties"@) {
                        lemma_first_present_text_held(node, names@, t);
                    }
                }
                lemma_explained_lift(env, sub_node, path, node, path, w);
                lemma_explained_join(env, node, path, w, rest);
            },
            None => {
                lemma_schema_list_smaller(schema, "allOf"@, i);
                lemma_walk_explained(env, node, sub, path, visited);
                lemma_explained_join(env, node, path, walk(env, node, sub, path, visited), rest);
            },
        }
    }
}

proof fn lemma_one_of_explained(
    env: WalkEnv,
    node: Json,
    schema: Json,
    path: Seq<char>,
    visited: Seq<Seq<char>>,
    i: int,
)
    ensures
        explained(env, node, path, walk_one_of(env, node, schema, path, visited, i)),
    decreases size(node), unvisited(env.definitions, visited), size(schema), 0nat, schema_list(schema, "oneOf"@).len() - i, 0int,
{
    let branches = schema_list(schema, "oneOf"@);
    if 0 <= i < branches.len() {
        lemma_one_of_explained(env, node, schema, path, visited, i + 1);
        if !branch_skipped(env, branches[i], node) {
            lemma_schema_list_smaller(schema, "oneOf"@, i);
            lemma_walk_explained(env, node, branches[i], path, visited);
            lemma_explained_join(
                env,
                node,
                path,
                walk(env, node, branches[i], path, visited),
                walk_one_of(env, node, schema, path, visited, i + 1),
            );
        }
    }
}

/// The error begins with `path` and then `:`, `.` or `[`.
pub open spec fn error_at_path(path: Seq<char>, e: Seq<char>) -> bool {
    ||| (path + seq![':']).is_prefix_of(e)
    ||| (path + seq!['.']).is_prefix_of(e)
    ||| (path + seq!['[']).is_prefix_of(e)
}

/// Every error that a walk at a non-empty path appends begins with that
/// path, followed by `:` (an error at the path itself), `.` (below a member)
/// or `[` (below an item).
pub proof fn lemma_walk_error_paths(env: WalkEnv, node: Json, schema: Json, path: Seq<char>, visited: Seq<Seq<char>>)
    requires
        path.len() > 0,
    ensures
        walk(env, node, schema, path, visited) matches Some(es) ==> forall|k: int|
            0 <= k < es.len() ==> #[trigger] error_at_path(path, es[k]),
{
    lemma_walk_explained(env, node, schema, path, visited);
    if let Some(es) = walk(env, node, schema, path, visited) {
        assert forall|k: int| 0 <= k < es.len() implies #[trigger] error_at_path(path, es[k]) by {
            let e = es[k];
            assert(error_explained(env, node, path, e));
            let (key, id, p) = choose|key: Seq<char>, id: Seq<char>, p: Seq<char>|
                #[trigger] error_from(env, node, path, e, key, id, p);
            let head = p + ": bindingId '"@ + id + "'"@;
            lemma_binding_ref_error_shape(
                p,
                id,
                resolved_bindings(env.root, env.files, true),
                env.verbose,
                e,
            );
            reveal_strlit(": bindingId '");
            assert(p.is_prefix_of(head)) by {
                assert(p =~= head.subrange(0, p.len() as int));
            }
            lemma_prefix_trans(p, head, e);
            if p == path {
                assert((path + seq![':']).is_prefix_of(head)) by {
                    assert(path + seq![':'] =~= head.subrange(0, path.len() + 1int));
                }
                lemma_prefix_trans(path + seq![':'], head, e);
            } else if (path + seq!['.']).is_prefix_of(p) {
                lemma_prefix_trans(path + seq!['.'], p, e);
            } else {
                lemma_prefix_trans(path + seq!['['], p, e);
            }
        }
    }
}

/// A walk where no definition has a validator registered under its ref
/// appends no error.
pub proof fn lemma_walk_without_validators(
    env: WalkEnv,
    node: Json,
    schema: Json,
    path: Seq<char>,
    visited: Seq<Seq<char>>,
)
    requires
        forall|key: Seq<char>|
            #[trigger] definition_for(env.definitions, key) is Some ==> validator_for(
                env.validators,
                key,
            ) is None,
    ensures
        walk(env, node, schema, path, visited) matches Some(es) ==> es.len() == 0,
{
    lemma_walk_explained(env, node, schema, path, visited);
    if let Some(es) = walk(env, node, schema, path, visited) {
        if es.len() > 0 {
            assert(error_explained(env, node, path, es[0]));
        }
    }
}

/// A walk of a node all of whose strings the root can refer to appends no
/// error.
pub proof fn lemma_walk_all_resolvable(env: WalkEnv, node: Json, schema: Json, path: Seq<char>, visited: Seq<Seq<char>>)
    requires
        forall|t: Seq<char>|
            #[trigger] holds_text(node, t) ==> resolved_bindings(env.root, env.files, true).contains(t),
    ensures
        walk(env, node, schema, path, visited) matches Some(es) ==> es.len() == 0,
{
    lemma_walk_explained(env, node, schema, path, visited);
    if let Some(es) = walk(env, node, schema, path, visited) {
        if es.len() > 0 {
            assert(error_explained(env, node, path, es[0]));
            let (key, id, p) = choose|key: Seq<char>, id: Seq<char>, p: Seq<char>|
                #[trigger] error_from(env, node, path, es[0], key, id, p);
            lemma_binding_ref_error_shape(
                p,
                id,
                resolved_bindings(env.root, env.files, true),
                env.verbose,
                es[0],
            );
        }
    }
}

proof fn lemma_root_properties_explained(env: WalkEnv, schema: Json, i: int)
    ensures
        explained(env, env.root, Seq::empty(), root_properties(env, schema, i)),
    decreases schema_table(schema, "properties"@).len() - i,
{
    let props = schema_table(schema, "properties"@);
    if 0 <= i < props.len() {
        lemma_root_properties_explained(env, schema, i + 1);
        let key = props[i].0@;
        if let Some(value) = member(env.root, key) {
            let w = walk(env, value, props[i].1, key, Seq::empty());
            lemma_walk_explained(env, value, props[i].1, key, Seq::empty());
            assert forall|t: Seq<char>| #[trigger] holds_text(value, t) implies holds_text(
                env.root,
                t,
            ) by {
                lemma_member_text_held(env.root, key, t);
            }
            lemma_explained_lift(env, value, key, env.root, Seq::empty(), w);
            lemma_explained_join(env, env.root, Seq::empty(), w, root_properties(env, schema, i + 1));
        }
    }
}

proof fn lemma_root_all_of_explained(env: WalkEnv, schema: Json, i: int)
    ensures
        explained(env, env.root, Seq::empty(), root_all_of(env, schema, i)),
    decreases schema_list(schema, "allOf"@).len() - i,
{
    let branches = schema_list(schema, "allOf"@);
    if 0 <= i < branches.len() {
        lemma_root_all_of_explained(env, schema, i + 1);
        lemma_walk_explained(env, env.root, branches[i], Seq::empty(), Seq::empty());
        lemma_explained_join(
            env,
            env.root,
            Seq::empty(),
            walk(env, env.root, branches[i], Seq::empty(), Seq::empty()),
            root_all_of(env, schema, i + 1),
        );
    }
}

/// Error `e` is the message for the string `id`, which the root holds and
/// cannot refer to, at path `p`.
pub open spec fn unresolved_message(
    root: Json,
    files: Seq<(String, Json)>,
    e: Seq<char>,
    id: Seq<char>,
    p: Seq<char>,
) -> bool {
    &&& holds_text(root, id)
    &&& !resolved_bindings(root, files, true).contains(id)
    &&& (p + ": bindingId '"@ + id + "'"@).is_prefix_of(e)
}

/// Error `e` is the message for some string that the root holds and cannot
/// refer to.
pub open spec fn reports_unresolved(root: Json, files: Seq<(String, Json)>, e: Seq<char>) -> bool {
    exists|id: Seq<char>, p: Seq<char>| #[trigger] unresolved_message(root, files, e, id, p)
}

/// Every semantic error reads `p: bindingId 'id'…` for a string `id` that
/// the root holds and that is not among the bindings the root can refer to.
pub proof fn lemma_semantic_errors_unresolved(
    root: Json,
    files: Seq<(String, Json)>,
    schema: Json,
    verbose: u8,
)
    ensures
        semantic_errors(root, files, schema, verbose) matches Some(es) ==> forall|k: int|
            0 <= k < es.len() ==> #[trigger] reports_unresolved(root, files, es[k]),
{
    let env = semantic_env(root, files, schema, verbose);
    lemma_root_properties_explained(env, schema, 0);
    lemma_root_all_of_explained(env, schema, 0);
    lemma_explained_join(env, root, Seq::empty(), root_properties(env, schema, 0), root_all_of(env, schema, 0));
    if let Some(es) = semantic_errors(root, files, schema, verbose) {
        assert forall|k: int| 0 <= k < es.len() implies reports_unresolved(root, files, es[k]) by {
            assert(error_explained(env, root, Seq::empty(), es[k]));
            let (key, id, p) = choose|key: Seq<char>, id: Seq<char>, p: Seq<char>|
                #[trigger] error_from(env, root, Seq::empty(), es[k], key, id, p);
            lemma_binding_ref_error_shape(
                p,
                id,
                resolved_bindings(root, files, true),
                verbose,
                es[k],
            );
            assert(unresolved_message(root, files, es[k], id, p));
        }
    }
}

/// Where every string that the root holds is among the bindings it can
/// refer to, there is no semantic error.
pub proof fn lemma_all_resolvable_no_errors(
    root: Json,
    files: Seq<(String, Json)>,
    schema: Json,
    verbose: u8,
)
    requires
        forall|t: Seq<char>|
            #[trigger] holds_text(root, t) ==> resolved_bindings(root, files, true).contains(t),
    ensures
        semantic_errors(root, files, schema, verbose) matches Some(es) ==> es.len() == 0,
{
    lemma_semantic_errors_unresolved(root, files, schema, verbose);
    if let Some(es) = semantic_errors(root, files, schema, verbose) {
        if es.len() > 0 {
            assert(reports_unresolved(root, files, es[0]));
            let (id, p) = choose|id: Seq<char>, p: Seq<char>|
                #[trigger] unresolved_message(root, files, es[0], id, p);
        }
    }
}

proof fn lemma_definition_named(table: Seq<(String, Json)>, name: Seq<char>)
    requires
        definition_for(schema_definition_refs(table), definitions_prefix() + name) is Some,
    ensures
        members_get(table, name) is Some,
    decreases table.len(),
{
    let defs = schema_definition_refs(table);
    let key = definitions_prefix() + name;
    if defs[0].0 == key {
        assert(table[0].0@ =~= name) by {
            assert((definitions_prefix() + table[0].0@).skip(definitions_prefix().len() as int)
                =~= table[0].0@);
            assert(key.skip(definitions_prefix().len() as int) =~= name);
        }
    } else {
        assert(defs.drop_first() =~= schema_definition_refs(table.drop_first()));
        lemma_definition_named(table.drop_first(), name);
    }
}

/// Where the schema has no `bindingId` definition, there is no semantic
/// error: the only check is registered under that definition's ref.
pub proof fn lemma_no_binding_definition_no_errors(
    root: Json,
    files: Seq<(String, Json)>,
    schema: Json,
    verbose: u8,
)
    requires
        members_get(schema_table(schema, "definitions"@), "bindingId"@) is None,
    ensures
        semantic_errors(root, files, schema, verbose) matches Some(es) ==> es.len() == 0,
{
    let env = semantic_env(root, files, schema, verbose);
    lemma_root_properties_explained(env, schema, 0);
    lemma_root_all_of_explained(env, schema, 0);
    lemma_explained_join(env, root, Seq::empty(), root_properties(env, schema, 0), root_all_of(env, schema, 0));
    if let Some(es) = semantic_errors(root, files, schema, verbose) {
        if es.len() > 0 {
            assert(error_explained(env, root, Seq::empty(), es[0]));
            let (key, id, p) = choose|key: Seq<char>, id: Seq<char>, p: Seq<char>|
                #[trigger] error_from(env, root, Seq::empty(), es[0], key, id, p);
            assert(env.validators.drop_first() =~= Seq::<(Seq<char>, SemanticValidator)>::empty());
            assert(validator_for(env.validators.drop_first(), key) is None);
            assert(env.validators[0].0 == "#/definitions/bindingId"@);
            assert(key == "#/definitions/bindingId"@);
            reveal_strlit("#/definitions/bindingId");
            reveal_strlit("#/definitions/");
            reveal_strlit("bindingId");
            assert(key =~= definitions_prefix() + "bindingId"@);
            lemma_definition_named(schema_table(schema, "definitions"@), "bindingId"@);
        }
    }
}

} // verus!
