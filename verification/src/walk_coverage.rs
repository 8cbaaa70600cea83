use vstd::prelude::*;

use crate::bindings::{binding_ref_errors, resolved_bindings};
use crate::json::{member, members_of, Json};
use crate::pattern::{pattern_compiles, pattern_matches};
use crate::text::{item_path, member_path};
use crate::walk::{
    branch_skipped, first_present_member, items_of, join_errors, ref_target, root_all_of,
    root_properties, schema_list, schema_table, semantic_env, semantic_errors, validator_for, walk,
    walk_additional, walk_all_of, walk_array_items, walk_object, walk_one_of, walk_pattern_keys,
    walk_patterns, walk_properties, SemanticValidator, WalkEnv,
};

verus! {

/// Where the whole walk ends, the part ends too, and every error of the
/// part is among the errors of the whole.
pub open spec fn errors_among(part: Option<Seq<Seq<char>>>, whole: Option<Seq<Seq<char>>>) -> bool {
    whole is Some ==> {
        &&& part is Some
        &&& forall|k: int| 0 <= k < part->0.len() ==> #[trigger] whole->0.contains(part->0[k])
    }
}

proof fn lemma_among_join_left(a: Option<Seq<Seq<char>>>, b: Option<Seq<Seq<char>>>)
    ensures
        errors_among(a, join_errors(a, b)),
{
    if let (Some(x), Some(y)) = (a, b) {
        assert forall|k: int| 0 <= k < x.len() implies #[trigger] (x + y).contains(x[k]) by {
            assert((x + y)[k] == x[k]);
        }
    }
}

proof fn lemma_among_join_right(a: Option<Seq<Seq<char>>>, b: Option<Seq<Seq<char>>>)
    ensures
        errors_among(b, join_errors(a, b)),
{
    if let (Some(x), Some(y)) = (a, b) {
        assert forall|k: int| 0 <= k < y.len() implies #[trigger] (x + y).contains(y[k]) by {
            assert((x + y)[x.len() + k] == y[k]);
        }
    }
}

proof fn lemma_among_trans(a: Option<Seq<Seq<char>>>, b: Option<Seq<Seq<char>>>, c: Option<Seq<Seq<char>>>)
    requires
        errors_among(a, b),
        errors_among(b, c),
    ensures
        errors_among(a, c),
{
    if let Some(z) = c {
        let y = b->0;
        let x = a->0;
        assert forall|k: int| 0 <= k < x.len() implies #[trigger] z.contains(x[k]) by {
            assert(y.contains(x[k]));
            let m = choose|m: int| 0 <= m < y.len() && y[m] == x[k];
            assert(z.contains(y[m]));
        }
    }
}

/// Both parts of a join are among it.
proof fn lemma_among_join(a: Option<Seq<Seq<char>>>, b: Option<Seq<Seq<char>>>)
    ensures
        errors_among(a, join_errors(a, b)),
        errors_among(b, join_errors(a, b)),
{
    lemma_among_join_left(a, b);
    lemma_among_join_right(a, b);
}

/// Each of the six sections of an object's walk is among the walk.
proof fn lemma_object_sections(env: WalkEnv, node: Json, schema: Json, path: Seq<char>, visited: Seq<Seq<char>>)
    requires
        node is Object,
    ensures
        errors_among(walk_properties(env, node, schema, path, visited, 0), walk_object(env, node, schema, path, visited)),
        errors_among(walk_additional(env, node, schema, path, visited, 0), walk_object(env, node, schema, path, visited)),
        errors_among(walk_patterns(env, node, schema, path, visited, 0), walk_object(env, node, schema, path, visited)),
        member(schema, "items"@) matches Some(items_schema) ==> errors_among(
            walk(env, node, items_schema, item_path(path, 0), visited),
            walk_object(env, node, schema, path, visited),
        ),
        errors_among(walk_all_of(env, node, schema, path, visited, 0), walk_object(env, node, schema, path, visited)),
        errors_among(walk_one_of(env, node, schema, path, visited, 0), walk_object(env, node, schema, path, visited)),
{
    let items = match member(schema, "items"@) {
        Some(items_schema) => walk(env, node, items_schema, item_path(path, 0), visited),
        None => Some(Seq::empty()),
    };
    let p = walk_properties(env, node, schema, path, visited, 0);
    let a = walk_additional(env, node, schema, path, visited, 0);
    let t = walk_patterns(env, node, schema, path, visited, 0);
    let l = walk_all_of(env, node, schema, path, visited, 0);
    let o = walk_one_of(env, node, schema, path, visited, 0);
    let j1 = join_errors(p, a);
    let j2 = join_errors(j1, t);
    let j3 = join_errors(j2, items);
    let j4 = join_errors(j3, l);
    let whole = join_errors(j4, o);
    assert(walk_object(env, node, schema, path, visited) == whole);
    lemma_among_join(p, a);
    lemma_among_join(j1, t);
    lemma_among_join(j2, items);
    lemma_among_join(j3, l);
    lemma_among_join(j4, o);
    lemma_among_trans(j3, j4, whole);
    lemma_among_trans(j2, j3, whole);
    lemma_among_trans(j1, j2, whole);
    lemma_among_trans(p, j1, whole);
    lemma_among_trans(a, j1, whole);
    lemma_among_trans(t, j2, whole);
    lemma_among_trans(items, j3, whole);
    lemma_among_trans(l, j4, whole);
}

proof fn lemma_properties_cover(
    env: WalkEnv,
    node: Json,
    schema: Json,
    path: Seq<char>,
    visited: Seq<Seq<char>>,
    i: int,
    j: int,
)
    requires
        0 <= i <= j < schema_table(schema, "properties"@).len(),
        member(node, schema_table(schema, "properties"@)[j].0@) is Some,
    ensures
        errors_among(
            walk(
                env,
                member(node, schema_table(schema, "properties"@)[j].0@)->0,
                schema_table(schema, "properties"@)[j].1,
                member_path(path, schema_table(schema, "properties"@)[j].0@),
                Seq::empty(),
            ),
            walk_properties(env, node, schema, path, visited, i),
        ),
    decreases j - i,
{
    let props = schema_table(schema, "properties"@);
    let rest = walk_properties(env, node, schema, path, visited, i + 1);
    let w = walk(env, member(node, props[i].0@)->0, props[i].1, member_path(path, props[i].0@), Seq::empty());
    if i == j {
        lemma_among_join(w, rest);
    } else {
        lemma_properties_cover(env, node, schema, path, visited, i + 1, j);
        if member(node, props[i].0@) is Some {
            lemma_among_join(w, rest);
            lemma_among_trans(
                walk(env, member(node, props[j].0@)->0, props[j].1, member_path(path, props[j].0@), Seq::empty()),
                rest,
                walk_properties(env, node, schema, path, visited, i),
            );
        }
    }
}

proof fn lemma_additional_cover(
    env: WalkEnv,
    node: Json,
    schema: Json,
    path: Seq<char>,
    visited: Seq<Seq<char>>,
    i: int,
    j: int,
)
    requires
        0 <= i <= j < members_of(node).len(),
        member(schema, "additionalProperties"@) is Some,
        !(members_of(node)[j].0@.len() > 0 && members_of(node)[j].0@[0] == '$'),
    ensures
        errors_among(
            walk(
                env,
                members_of(node)[j].1,
                member(schema, "additionalProperties"@)->0,
                member_path(path, members_of(node)[j].0@),
                Seq::empty(),
            ),
            walk_additional(env, node, schema, path, visited, i),
        ),
    decreases j - i,
{
    let entries = members_of(node);
    let add = member(schema, "additionalProperties"@)->0;
    let rest = walk_additional(env, node, schema, path, visited, i + 1);
    let w = walk(env, entries[i].1, add, member_path(path, entries[i].0@), Seq::empty());
    if i == j {
        lemma_among_join(w, rest);
    } else {
        lemma_additional_cover(env, node, schema, path, visited, i + 1, j);
        if !(entries[i].0@.len() > 0 && entries[i].0@[0] == '$') {
            lemma_among_join(w, rest);
            lemma_among_trans(
                walk(env, entries[j].1, add, member_path(path, entries[j].0@), Seq::empty()),
                rest,
                walk_additional(env, node, schema, path, visited, i),
            );
        }
    }
}

proof fn lemma_pattern_keys_cover(
    env: WalkEnv,
    node: Json,
    schema: Json,
    path: Seq<char>,
    visited: Seq<Seq<char>>,
    i: int,
    k: int,
    m: int,
)
    requires
        0 <= i < schema_table(schema, "patternProperties"@).len(),
        0 <= k <= m < members_of(node).len(),
        pattern_matches(schema_table(schema, "patternProperties"@)[i].0@, members_of(node)[m].0@),
    ensures
        errors_among(
            walk(
                env,
                members_of(node)[m].1,
                schema_table(schema, "patternProperties"@)[i].1,
                member_path(path, members_of(node)[m].0@),
                Seq::empty(),
            ),
            walk_pattern_keys(env, node, schema, path, visited, i, k),
        ),
    decreases m - k,
{
    let patterns = schema_table(schema, "patternProperties"@);
    let entries = members_of(node);
    let rest = walk_pattern_keys(env, node, schema, path, visited, i, k + 1);
    let w = walk(env, entries[k].1, patterns[i].1, member_path(path, entries[k].0@), Seq::empty());
    if k == m {
        lemma_among_join(w, rest);
    } else {
        lemma_pattern_keys_cover(env, node, schema, path, visited, i, k + 1, m);
        if pattern_matches(patterns[i].0@, entries[k].0@) {
            lemma_among_join(w, rest);
            lemma_among_trans(
                walk(env, entries[m].1, patterns[i].1, member_path(path, entries[m].0@), Seq::empty()),
                rest,
                walk_pattern_keys(env, node, schema, path, visited, i, k),
            );
        }
    }
}

proof fn lemma_patterns_cover(
    env: WalkEnv,
    node: Json,
    schema: Json,
    path: Seq<char>,
    visited: Seq<Seq<char>>,
    i: int,
    j: int,
)
    requires
        0 <= i <= j < schema_table(schema, "patternProperties"@).len(),
        pattern_compiles(schema_table(schema, "patternProperties"@)[j].0@),
    ensures
        errors_among(
            walk_pattern_keys(env, node, schema, path, visited, j, 0),
            walk_patterns(env, node, schema, path, visited, i),
        ),
    decreases j - i,
{
    let patterns = schema_table(schema, "patternProperties"@);
    let rest = walk_patterns(env, node, schema, path, visited, i + 1);
    let w = walk_pattern_keys(env, node, schema, path, visited, i, 0);
    if i == j {
        lemma_among_join(w, rest);
    } else {
        lemma_patterns_cover(env, node, schema, path, visited, i + 1, j);
        if pattern_compiles(patterns[i].0@) {
            lemma_among_join(w, rest);
            lemma_among_trans(
                walk_pattern_keys(env, node, schema, path, visited, j, 0),
                rest,
                walk_patterns(env, node, schema, path, visited, i),
            );
        }
    }
}

proof fn lemma_array_items_cover(
    env: WalkEnv,
    node: Json,
    schema: Json,
    path: Seq<char>,
    visited: Seq<Seq<char>>,
    i: int,
    j: int,
)
    requires
        0 <= i <= j < items_of(node).len(),
        member(schema, "items"@) is Some,
    ensures
        errors_among(
            walk(env, items_of(node)[j], member(schema, "items"@)->0, item_path(path, j as nat), Seq::empty()),
            walk_array_items(env, node, schema, path, visited, i),
        ),
    decreases j - i,
{
    let is = member(schema, "items"@)->0;
    let rest = walk_array_items(env, node, schema, path, visited, i + 1);
    let w = walk(env, items_of(node)[i], is, item_path(path, i as nat), Seq::empty());
    lemma_among_join(w, rest);
    if i < j {
        lemma_array_items_cover(env, node, schema, path, visited, i + 1, j);
        lemma_among_trans(
            walk(env, items_of(node)[j], is, item_path(path, j as nat), Seq::empty()),
            rest,
            walk_array_items(env, node, schema, path, visited, i),
        );
    }
}

/// The walk along allOf branch `j`: along the value of the first of its
/// `properties` that the node has, else along the branch with the node.
pub open spec fn all_of_branch_walk(
    env: WalkEnv,
    node: Json,
    sub: Json,
    path: Seq<char>,
    visited: Seq<Seq<char>>,
) -> Option<Seq<Seq<char>>> {
    let present = match member(sub, "properties"@) {
        Some(Json::Object(names)) => first_present_member(node, names@),
        _ => None,
    };
    match present {
        Some(sub_node) => walk(env, sub_node, sub, path, Seq::empty()),
        None => walk(env, node, sub, path, visited),
    }
}

proof fn lemma_all_of_cover(
    env: WalkEnv,
    node: Json,
    schema: Json,
    path: Seq<char>,
    visited: Seq<Seq<char>>,
    i: int,
    j: int,
)
    requires
        0 <= i <= j < schema_list(schema, "allOf"@).len(),
    ensures
        errors_among(
            all_of_branch_walk(env, node, schema_list(schema, "allOf"@)[j], path, visited),
            walk_all_of(env, node, schema, path, visited, i),
        ),
    decreases j - i,
{
    let branches = schema_list(schema, "allOf"@);
    let rest = walk_all_of(env, node, schema, path, visited, i + 1);
    let w = all_of_branch_walk(env, node, branches[i], path, visited);
    assert(walk_all_of(env, node, schema, path, visited, i) == join_errors(w, rest));
    lemma_among_join(w, rest);
    if i < j {
        lemma_all_of_cover(env, node, schema, path, visited, i + 1, j);
        lemma_among_trans(
            all_of_branch_walk(env, node, branches[j], path, visited),
            rest,
            walk_all_of(env, node, schema, path, visited, i),
        );
    }
}

proof fn lemma_one_of_cover(
    env: WalkEnv,
    node: Json,
    schema: Json,
    path: Seq<char>,
    visited: Seq<Seq<char>>,
    i: int,
    j: int,
)
    requires
        0 <= i <= j < schema_list(schema, "oneOf"@).len(),
        !branch_skipped(env, schema_list(schema, "oneOf"@)[j], node),
    ensures
        errors_among(
            walk(env, node, schema_list(schema, "oneOf"@)[j], path, visited),
            walk_one_of(env, node, schema, path, visited, i),
        ),
    decreases j - i,
{
    let branches = schema_list(schema, "oneOf"@);
    let rest = walk_one_of(env, node, schema, path, visited, i + 1);
    let w = walk(env, node, branches[i], path, visited);
    if i == j {
        lemma_among_join(w, rest);
    } else {
        lemma_one_of_cover(env, node, schema, path, visited, i + 1, j);
        if !branch_skipped(env, branches[i], node) {
            lemma_among_join(w, rest);
            lemma_among_trans(
                walk(env, node, branches[j], path, visited),
                rest,
                walk_one_of(env, node, schema, path, visited, i),
            );
        }
    }
}

/// Every property of the schema that an object has is walked: where the
/// node is an object and the schema node follows no `$ref`, the errors of
/// the member's value along the property's schema, at `path.name`, are
/// among the walk's errors (and the walk ends only where that walk ends).
pub proof fn lemma_walk_covers_properties(
    env: WalkEnv,
    node: Json,
    schema: Json,
    path: Seq<char>,
    visited: Seq<Seq<char>>,
    j: int,
)
    requires
        node is Object,
        ref_target(env, schema) is None,
        0 <= j < schema_table(schema, "properties"@).len(),
        member(node, schema_table(schema, "properties"@)[j].0@) is Some,
    ensures
        errors_among(
            walk(
                env,
                member(node, schema_table(schema, "properties"@)[j].0@)->0,
                schema_table(schema, "properties"@)[j].1,
                member_path(path, schema_table(schema, "properties"@)[j].0@),
                Seq::empty(),
            ),
            walk(env, node, schema, path, visited),
        ),
{
    lemma_properties_cover(env, node, schema, path, visited, 0, j);
    lemma_object_sections(env, node, schema, path, visited);
    let props = schema_table(schema, "properties"@);
    lemma_among_trans(
        walk(env, member(node, props[j].0@)->0, props[j].1, member_path(path, props[j].0@), Seq::empty()),
        walk_properties(env, node, schema, path, visited, 0),
        walk(env, node, schema, path, visited),
    );
}

/// Every member of an object whose name does not start with `$` is walked
/// along the schema's `additionalProperties`, at `path.name`.
pub proof fn lemma_walk_covers_additional(
    env: WalkEnv,
    node: Json,
    schema: Json,
    path: Seq<char>,
    visited: Seq<Seq<char>>,
    j: int,
)
    requires
        node is Object,
        ref_target(env, schema) is None,
        0 <= j < members_of(node).len(),
        member(schema, "additionalProperties"@) is Some,
        !(members_of(node)[j].0@.len() > 0 && members_of(node)[j].0@[0] == '$'),
    ensures
        errors_among(
            walk(
                env,
                members_of(node)[j].1,
                member(schema, "additionalProperties"@)->0,
                member_path(path, members_of(node)[j].0@),
                Seq::empty(),
            ),
            walk(env, node, schema, path, visited),
        ),
{
    lemma_additional_cover(env, node, schema, path, visited, 0, j);
    lemma_object_sections(env, node, schema, path, visited);
    let entries = members_of(node);
    lemma_among_trans(
        walk(env, entries[j].1, member(schema, "additionalProperties"@)->0, member_path(path, entries[j].0@), Seq::empty()),
        walk_additional(env, node, schema, path, visited, 0),
        walk(env, node, schema, path, visited),
    );
}

/// Every member of an object whose name matches a compiling pattern of the
/// schema's `patternProperties` is walked along that pattern's schema, at
/// `path.name`.
pub proof fn lemma_walk_covers_patterns(
    env: WalkEnv,
    node: Json,
    schema: Json,
    path: Seq<char>,
    visited: Seq<Seq<char>>,
    j: int,
    m: int,
)
    requires
        node is Object,
        ref_target(env, schema) is None,
        0 <= j < schema_table(schema, "patternProperties"@).len(),
        0 <= m < members_of(node).len(),
        pattern_compiles(schema_table(schema, "patternProperties"@)[j].0@),
        pattern_matches(schema_table(schema, "patternProperties"@)[j].0@, members_of(node)[m].0@),
    ensures
        errors_among(
            walk(
                env,
                members_of(node)[m].1,
                schema_table(schema, "patternProperties"@)[j].1,
                member_path(path, members_of(node)[m].0@),
                Seq::empty(),
            ),
            walk(env, node, schema, path, visited),
        ),
{
    let patterns = schema_table(schema, "patternProperties"@);
    let entries = members_of(node);
    let w = walk(env, entries[m].1, patterns[j].1, member_path(path, entries[m].0@), Seq::empty());
    lemma_pattern_keys_cover(env, node, schema, path, visited, j, 0, m);
    lemma_patterns_cover(env, node, schema, path, visited, 0, j);
    lemma_object_sections(env, node, schema, path, visited);
    lemma_among_trans(
        w,
        walk_pattern_keys(env, node, schema, path, visited, j, 0),
        walk_patterns(env, node, schema, path, visited, 0),
    );
    lemma_among_trans(w, walk_patterns(env, node, schema, path, visited, 0), walk(env, node, schema, path, visited));
}

/// Every item of an array is walked along the schema's `items`, at
/// `path[i]`; an object is walked along `items` itself, at `path[0]`.
pub proof fn lemma_walk_covers_items(
    env: WalkEnv,
    node: Json,
    schema: Json,
    path: Seq<char>,
    visited: Seq<Seq<char>>,
    j: int,
)
    requires
        member(schema, "items"@) is Some,
    ensures
        node is Array && 0 <= j < items_of(node).len() ==> errors_among(
            walk(env, items_of(node)[j], member(schema, "items"@)->0, item_path(path, j as nat), Seq::empty()),
            walk(env, node, schema, path, visited),
        ),
        node is Object && ref_target(env, schema) is None ==> errors_among(
            walk(env, node, member(schema, "items"@)->0, item_path(path, 0), visited),
            walk(env, node, schema, path, visited),
        ),
{
    if node is Array && 0 <= j < items_of(node).len() {
        lemma_array_items_cover(env, node, schema, path, visited, 0, j);
    }
    if node is Object && ref_target(env, schema) is None {
        lemma_object_sections(env, node, schema, path, visited);
    }
}

/// Every `allOf` branch is walked: the errors of the walk along branch `j`
/// (with the value of the first of its `properties` that the node has, else
/// with the node) are among the walk's errors.
pub proof fn lemma_walk_covers_all_of(
    env: WalkEnv,
    node: Json,
    schema: Json,
    path: Seq<char>,
    visited: Seq<Seq<char>>,
    j: int,
)
    requires
        node is Object,
        ref_target(env, schema) is None,
        0 <= j < schema_list(schema, "allOf"@).len(),
    ensures
        errors_among(
            all_of_branch_walk(env, node, schema_list(schema, "allOf"@)[j], path, visited),
            walk(env, node, schema, path, visited),
        ),
{
    lemma_all_of_cover(env, node, schema, path, visited, 0, j);
    lemma_object_sections(env, node, schema, path, visited);
    lemma_among_trans(
        all_of_branch_walk(env, node, schema_list(schema, "allOf"@)[j], path, visited),
        walk_all_of(env, node, schema, path, visited, 0),
        walk(env, node, schema, path, visited),
    );
}

/// A `oneOf` branch without a `$ref` is skipped exactly where its own
/// `type` does not fit the node: `string` for an object, `object` for
/// anything else; a branch with neither a `$ref` nor a `type` is walked.
pub proof fn lemma_one_of_branch_fit(env: WalkEnv, sub: Json, node: Json)
    requires
        member(sub, "$ref"@) is None,
    ensures
        member(sub, "type"@) is None ==> !branch_skipped(env, sub, node),
        member(sub, "type"@) matches Some(Json::Str(t)) ==> (branch_skipped(env, sub, node) <==> (
        (t@ == "string"@ && node is Object) || (t@ == "object"@ && !(node is Object)))),
{
}

/// Every `oneOf` branch that is not skipped is walked with the node.
pub proof fn lemma_walk_covers_one_of(
    env: WalkEnv,
    node: Json,
    schema: Json,
    path: Seq<char>,
    visited: Seq<Seq<char>>,
    j: int,
)
    requires
        node is Object,
        ref_target(env, schema) is None,
        0 <= j < schema_list(schema, "oneOf"@).len(),
        !branch_skipped(env, schema_list(schema, "oneOf"@)[j], node),
    ensures
        errors_among(
            walk(env, node, schema_list(schema, "oneOf"@)[j], path, visited),
            walk(env, node, schema, path, visited),
        ),
{
    lemma_one_of_cover(env, node, schema, path, visited, 0, j);
    lemma_object_sections(env, node, schema, path, visited);
    lemma_among_trans(
        walk(env, node, schema_list(schema, "oneOf"@)[j], path, visited),
        walk_one_of(env, node, schema, path, visited, 0),
        walk(env, node, schema, path, visited),
    );
}

/// At a `$ref` that names a definition and was not followed before on this
/// node, a string node is checked by the `bindingId` validator registered
/// under the ref, and the walk goes on along the definition; both sets of
/// errors are among the walk's. A ref followed before on the node ends
/// the walk.
pub proof fn lemma_walk_covers_ref(
    env: WalkEnv,
    node: Json,
    schema: Json,
    path: Seq<char>,
    visited: Seq<Seq<char>>,
)
    requires
        !(node is Array),
        ref_target(env, schema) is Some,
    ensures
        ({
            let (key, definition) = ref_target(env, schema)->0;
            &&& visited.contains(key) ==> walk(env, node, schema, path, visited) is None
            &&& !visited.contains(key) ==> errors_among(
                walk(env, node, definition, path, visited.push(key)),
                walk(env, node, schema, path, visited),
            )
            &&& !visited.contains(key) && validator_for(env.validators, key) == Some(
                SemanticValidator::BindingRef,
            ) ==> (node matches Json::Str(id) ==> errors_among(
                Some(binding_ref_errors(path, id@, resolved_bindings(env.root, env.files, true), env.verbose)),
                walk(env, node, schema, path, visited),
            ))
        }),
{
    let (key, definition) = ref_target(env, schema)->0;
    if !visited.contains(key) {
        let v = crate::walk::validator_errors(env, key, node, path);
        lemma_among_join(Some(v), walk(env, node, definition, path, visited.push(key)));
    }
}

proof fn lemma_root_properties_cover(env: WalkEnv, schema: Json, i: int, j: int)
    requires
        0 <= i <= j < schema_table(schema, "properties"@).len(),
        member(env.root, schema_table(schema, "properties"@)[j].0@) is Some,
    ensures
        errors_among(
            walk(
                env,
                member(env.root, schema_table(schema, "properties"@)[j].0@)->0,
                schema_table(schema, "properties"@)[j].1,
                schema_table(schema, "properties"@)[j].0@,
                Seq::empty(),
            ),
            root_properties(env, schema, i),
        ),
    decreases j - i,
{
    let props = schema_table(schema, "properties"@);
    let rest = root_properties(env, schema, i + 1);
    let w = walk(env, member(env.root, props[i].0@)->0, props[i].1, props[i].0@, Seq::empty());
    if i == j {
        lemma_among_join(w, rest);
    } else {
        lemma_root_properties_cover(env, schema, i + 1, j);
        if member(env.root, props[i].0@) is Some {
            lemma_among_join(w, rest);
            lemma_among_trans(
                walk(env, member(env.root, props[j].0@)->0, props[j].1, props[j].0@, Seq::empty()),
                rest,
                root_properties(env, schema, i),
            );
        }
    }
}

proof fn lemma_root_all_of_cover(env: WalkEnv, schema: Json, i: int, j: int)
    requires
        0 <= i <= j < schema_list(schema, "allOf"@).len(),
    ensures
        errors_among(
            walk(env, env.root, schema_list(schema, "allOf"@)[j], Seq::empty(), Seq::empty()),
            root_all_of(env, schema, i),
        ),
    decreases j - i,
{
    let branches = schema_list(schema, "allOf"@);
    let rest = root_all_of(env, schema, i + 1);
    let w = walk(env, env.root, branches[i], Seq::empty(), Seq::empty());
    lemma_among_join(w, rest);
    if i < j {
        lemma_root_all_of_cover(env, schema, i + 1, j);
        lemma_among_trans(
            walk(env, env.root, branches[j], Seq::empty(), Seq::empty()),
            rest,
            root_all_of(env, schema, i),
        );
    }
}

/// The semantic checks walk every root member that the schema's
/// `properties` name, at the member's name, and the whole root along every
/// branch of the schema's `allOf`, at the empty path: the errors of each of
/// those walks are among the semantic errors.
pub proof fn lemma_semantic_errors_cover(
    root: Json,
    files: Seq<(String, Json)>,
    schema: Json,
    verbose: u8,
    j: int,
)
    ensures
        ({
            let env = semantic_env(root, files, schema, verbose);
            let props = schema_table(schema, "properties"@);
            0 <= j < props.len() && member(root, props[j].0@) is Some ==> errors_among(
                walk(env, member(root, props[j].0@)->0, props[j].1, props[j].0@, Seq::empty()),
                semantic_errors(root, files, schema, verbose),
            )
        }),
        ({
            let env = semantic_env(root, files, schema, verbose);
            0 <= j < schema_list(schema, "allOf"@).len() ==> errors_among(
                walk(env, root, schema_list(schema, "allOf"@)[j], Seq::empty(), Seq::empty()),
                semantic_errors(root, files, schema, verbose),
            )
        }),
{
    let env = semantic_env(root, files, schema, verbose);
    let p = root_properties(env, schema, 0);
    let a = root_all_of(env, schema, 0);
    lemma_among_join(p, a);
    let props = schema_table(schema, "properties"@);
    if 0 <= j < props.len() && member(root, props[j].0@) is Some {
        lemma_root_properties_cover(env, schema, 0, j);
        lemma_among_trans(
            walk(env, member(root, props[j].0@)->0, props[j].1, props[j].0@, Seq::empty()),
            p,
            join_errors(p, a),
        );
    }
    if 0 <= j < schema_list(schema, "allOf"@).len() {
        lemma_root_all_of_cover(env, schema, 0, j);
        lemma_among_trans(
            walk(env, root, schema_list(schema, "allOf"@)[j], Seq::empty(), Seq::empty()),
            a,
            join_errors(p, a),
        );
    }
}

} // verus!
