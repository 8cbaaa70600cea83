use vstd::prelude::*;
use vstd::string::*;

use crate::json::{
    find_name, lemma_name_index, member, member_names, members_get, name_index, text_member, Json,
};
use crate::registry::{registered, FileRegistry};
use crate::text::{debug_list, debug_list_text, text_eq};

verus! {

/// The members of an optional document where it is an object; else none.
pub open spec fn object_members(d: Option<Json>) -> Seq<(String, Json)> {
    match d {
        Some(Json::Object(ms)) => ms@,
        _ => Seq::empty(),
    }
}

/// The binding ids that a document declares itself: the names of its
/// `bindings` table, then those of its `buttons` table.
pub open spec fn direct_bindings(doc: Json) -> Seq<Seq<char>> {
    member_names(object_members(member(doc, "bindings"@))) + member_names(
        object_members(member(doc, "buttons"@)),
    )
}

/// The entries of `copy_configs`: the items where it is an array, else the
/// value itself; none where the member is absent.
pub open spec fn copy_config_entries(doc: Json) -> Seq<Json> {
    match member(doc, "copy_configs"@) {
        None => Seq::empty(),
        Some(Json::Array(items)) => items@,
        Some(v) => seq![v],
    }
}

/// `v` is a string that is the id of file `j`.
pub open spec fn names_file(files: Seq<(String, Json)>, v: Json, j: int) -> bool {
    v matches Json::Str(id) && name_index(files, id@) == Some(j)
}

/// File `j` of the registry is named by one of the `copy_configs` of `doc`.
pub open spec fn copy_step(files: Seq<(String, Json)>, doc: Json, j: int) -> bool {
    exists|k: int|
        0 <= k < copy_config_entries(doc).len() && names_file(
            files,
            #[trigger] copy_config_entries(doc)[k],
            j,
        )
}

/// File `j` shares the asset id list of `doc`: both take their `.sc` file
/// from `AssetIdList`, both name the same `sc_file_asset_id_list`, and the
/// id of file `j` is not the id of `doc`.
pub open spec fn asset_step(files: Seq<(String, Json)>, doc: Json, j: int) -> bool {
    &&& 0 <= j < files.len()
    &&& text_member(doc, "sc_file_source"@) == "AssetIdList"@
    &&& member(doc, "sc_file_asset_id_list"@) matches Some(Json::Str(list))
    &&& files[j].0@ != text_member(doc, "id"@)
    &&& text_member(files[j].1, "sc_file_source"@) == "AssetIdList"@
    &&& member(files[j].1, "sc_file_asset_id_list"@) matches Some(Json::Str(other))
    &&& other@ == list@
}

/// File `j` is the `sc_file` of `doc`, which takes its `.sc` file from
/// `OtherTomlConfig`.
pub open spec fn other_config_step(files: Seq<(String, Json)>, doc: Json, j: int) -> bool {
    &&& text_member(doc, "sc_file_source"@) == "OtherTomlConfig"@
    &&& member(doc, "sc_file"@) matches Some(Json::Str(id))
    &&& name_index(files, id@) == Some(j)
}

/// The copy step as a step between nodes.
pub open spec fn copy_node(files: Seq<(String, Json)>, doc: Json, allow: bool, j: int, b: bool) -> bool {
    b == allow && copy_step(files, doc, j)
}

/// The asset id list step as a step between nodes.
pub open spec fn asset_node(files: Seq<(String, Json)>, doc: Json, allow: bool, j: int, b: bool) -> bool {
    allow && !b && asset_step(files, doc, j)
}

/// The `OtherTomlConfig` step as a step between nodes.
pub open spec fn other_node(files: Seq<(String, Json)>, doc: Json, j: int, b: bool) -> bool {
    b && other_config_step(files, doc, j)
}

/// Resolving `doc` (where asset id lists are followed when `allow` holds)
/// resolves file `j` of the registry with asset id lists followed when
/// `allow_next` holds.
pub open spec fn step(files: Seq<(String, Json)>, doc: Json, allow: bool, j: int, allow_next: bool) -> bool {
    ||| copy_node(files, doc, allow, j, allow_next)
    ||| asset_node(files, doc, allow, j, allow_next)
    ||| other_node(files, doc, j, allow_next)
}

/// The document of a node: the root for index -1, else file `i`.
pub open spec fn node_doc(root: Json, files: Seq<(String, Json)>, i: int) -> Json {
    if i < 0 {
        root
    } else {
        files[i].1
    }
}

/// A set of nodes that holds every node one step from a node it holds.
pub open spec fn closed_under_steps(root: Json, files: Seq<(String, Json)>, nodes: Set<(int, bool)>) -> bool {
    forall|i: int, a: bool, j: int, b: bool|
        #![trigger nodes.contains((i, a)), nodes.contains((j, b))]
        nodes.contains((i, a)) && -1 <= i < files.len() && step(files, node_doc(root, files, i), a, j, b)
            ==> nodes.contains((j, b))
}

/// Node `(j, b)` is reached from the root resolved with `allow`: every set
/// that holds the root node and is closed under steps holds it.
pub open spec fn reached(root: Json, files: Seq<(String, Json)>, allow: bool, j: int, b: bool) -> bool {
    forall|nodes: Set<(int, bool)>|
        #![trigger nodes.contains((j, b))]
        nodes.contains((-1, allow)) && closed_under_steps(root, files, nodes) ==> nodes.contains((j, b))
}

/// File `j` is reached, with either flag.
pub open spec fn file_reached(root: Json, files: Seq<(String, Json)>, allow: bool, j: int) -> bool {
    reached(root, files, allow, j, true) || reached(root, files, allow, j, false)
}

/// The direct bindings of the reached files among the first `n`, in
/// registry order.
pub open spec fn reached_bindings(root: Json, files: Seq<(String, Json)>, allow: bool, n: nat) -> Seq<
    Seq<char>,
>
    decreases n,
{
    if n == 0 {
        Seq::empty()
    } else {
        reached_bindings(root, files, allow, (n - 1) as nat) + if file_reached(
            root,
            files,
            allow,
            n - 1,
        ) {
            direct_bindings(files[n - 1].1)
        } else {
            Seq::empty()
        }
    }
}

/// `acc` followed by those of `items` not met before, each once.
pub open spec fn add_unique(acc: Seq<Seq<char>>, items: Seq<Seq<char>>) -> Seq<Seq<char>>
    decreases items.len(),
{
    if items.len() == 0 {
        acc
    } else {
        let before = add_unique(acc, items.drop_last());
        if before.contains(items.last()) {
            before
        } else {
            before.push(items.last())
        }
    }
}

/// The bindings that a root document can refer to: its own, then those of
/// every reached file in registry order, each binding once.
pub open spec fn resolved_bindings(root: Json, files: Seq<(String, Json)>, allow: bool) -> Seq<Seq<char>> {
    add_unique(
        Seq::empty(),
        direct_bindings(root) + reached_bindings(root, files, allow, files.len()),
    )
}

pub proof fn lemma_add_unique_concat(acc: Seq<Seq<char>>, x: Seq<Seq<char>>, y: Seq<Seq<char>>)
    ensures
        add_unique(acc, x + y) == add_unique(add_unique(acc, x), y),
    decreases y.len(),
{
    if y.len() == 0 {
        assert(x + y =~= x);
    } else {
        assert((x + y).drop_last() =~= x + y.drop_last());
        assert((x + y).last() == y.last());
        lemma_add_unique_concat(acc, x, y.drop_last());
    }
}

/// `add_unique` keeps `acc`, adds exactly the items, and repeats nothing
/// new.
pub proof fn lemma_add_unique_content(acc: Seq<Seq<char>>, items: Seq<Seq<char>>)
    requires
        acc.no_duplicates(),
    ensures
        add_unique(acc, items).no_duplicates(),
        forall|s: Seq<char>|
            #![trigger add_unique(acc, items).contains(s)]
            add_unique(acc, items).contains(s) <==> (acc.contains(s) || items.contains(s)),
    decreases items.len(),
{
    if items.len() > 0 {
        let before = add_unique(acc, items.drop_last());
        lemma_add_unique_content(acc, items.drop_last());
        assert forall|s: Seq<char>|
            add_unique(acc, items).contains(s) <==> (acc.contains(s) || items.contains(s)) by {
            if items.contains(s) && !items.drop_last().contains(s) {
                let k = choose|k: int| 0 <= k < items.len() && items[k] == s;
                if k < items.len() - 1 {
                    assert(items.drop_last()[k] == s);
                }
                if !before.contains(items.last()) {
                    assert(before.push(items.last())[before.len() as int] == s);
                }
            }
            if items.drop_last().contains(s) {
                let k = choose|k: int| 0 <= k < items.drop_last().len() && items.drop_last()[k] == s;
                assert(items[k] == s);
            }
            if !before.contains(items.last()) {
                if before.push(items.last()).contains(s) {
                    let k = choose|k: int|
                        0 <= k < before.push(items.last()).len() && before.push(items.last())[k]
                            == s;
                    if k < before.len() {
                        assert(before[k] == s);
                    }
                }
                if before.contains(s) {
                    let k = choose|k: int| 0 <= k < before.len() && before[k] == s;
                    assert(before.push(items.last())[k] == s);
                }
            }
        }
    }
}

fn text_is(s: Option<&String>, expected: &str) -> (r: bool)
    ensures
        r == (s matches Some(t) && t@ == expected@),
{
    match s {
        Some(t) => text_eq(t.as_str(), expected),
        None => false,
    }
}

fn push_copy_steps(files: &Vec<(String, Json)>, doc: &Json, allow: bool, res: &mut Vec<(usize, bool)>)
    ensures
        old(res)@.len() <= final(res)@.len(),
        forall|k: int| 0 <= k < old(res)@.len() ==> final(res)@[k] == old(res)@[k],
        forall|k: int|
            old(res)@.len() <= k < final(res)@.len() ==> final(res)@[k].0 < files.len() && copy_node(files@, *doc, allow, final(res)@[k].0 as int, final(res)@[k].1),
        forall|j: int, b: bool|
            #![trigger copy_node(files@, *doc, allow, j, b)]
            copy_node(files@, *doc, allow, j, b) ==> exists|k: int|
                old(res)@.len() <= k < final(res)@.len() && #[trigger] final(res)@[k] == (j as usize, b),
{
    let ghost before = res@;
    let ghost entries = copy_config_entries(*doc);
    let mut items: Vec<&Json> = Vec::new();
    match doc.get_member("copy_configs") {
        None => {},
        Some(Json::Array(xs)) => {
            let mut k: usize = 0;
            while k < xs.len()
                invariant
                    k <= xs@.len(),
                    items@.len() == k,
                    forall|m: int| 0 <= m < k ==> *items@[m] == xs@[m],
                decreases xs.len() - k,
            {
                items.push(&xs[k]);
                k += 1;
            }
        },
        Some(v) => {
            items.push(v);
        },
    }
    assert(items@.len() == entries.len() && forall|m: int|
        0 <= m < entries.len() ==> *items@[m] == entries[m]);
    let mut k: usize = 0;
    while k < items.len()
        invariant
            k <= items@.len(),
            items@.len() == entries.len(),
            forall|m: int| 0 <= m < entries.len() ==> *items@[m] == entries[m],
            entries == copy_config_entries(*doc),
            before.len() <= res@.len(),
            forall|m: int| 0 <= m < before.len() ==> res@[m] == before[m],
            forall|m: int|
                before.len() <= m < res@.len() ==> res@[m].0 < files.len() && res@[m].1 == allow
                    && copy_step(files@, *doc, res@[m].0 as int),
            forall|m: int, j: int|
                0 <= m < k && #[trigger] names_file(files@, entries[m], j) ==> exists|p: int|
                    before.len() <= p < res@.len() && #[trigger] res@[p] == (j as usize, allow),
        decreases items.len() - k,
    {
        proof {
            assert(entries[k as int] == *items@[k as int]);
        }
        let found = match items[k] {
            Json::Str(id) => {
                proof {
                    lemma_name_index(files@, id@);
                }
                find_name(files, id.as_str())
            },
            _ => None,
        };
        proof {
            if let Some(j) = found {
                assert(names_file(files@, entries[k as int], j as int));
            }
            assert forall|j: int| #[trigger] names_file(files@, entries[k as int], j) implies found
                == Some(j as usize) by {
                if let Json::Str(id) = entries[k as int] {
                    lemma_name_index(files@, id@);
                }
            }
        }
        let ghost res_before = res@;
        match found {
            Some(j) => {
                res.push((j, allow));
            },
            None => {},
        }
        proof {
            assert forall|m: int, j: int|
                0 <= m < k + 1 && #[trigger] names_file(files@, entries[m], j) implies exists|p: int|
                before.len() <= p < res@.len() && #[trigger] res@[p] == (j as usize, allow) by {
                if m == k {
                    assert(res@[res@.len() - 1] == (j as usize, allow));
                } else {
                    let p = choose|p: int|
                        before.len() <= p < res_before.len() && #[trigger] res_before[p] == (
                            j as usize,
                            allow,
                        );
                    assert(res@[p] == res_before[p]);
                }
            }
        }
        k += 1;
    }
    proof {
        assert forall|j: int, b: bool| #[trigger] copy_node(files@, *doc, allow, j, b) implies exists|p: int|
            before.len() <= p < res@.len() && #[trigger] res@[p] == (j as usize, b) by {
            let m = choose|m: int|
                0 <= m < entries.len() && #[trigger] names_file(files@, entries[m], j);
        }
    }
}

fn push_asset_steps(files: &Vec<(String, Json)>, doc: &Json, allow: bool, res: &mut Vec<(usize, bool)>)
    ensures
        old(res)@.len() <= final(res)@.len(),
        forall|k: int| 0 <= k < old(res)@.len() ==> final(res)@[k] == old(res)@[k],
        forall|k: int|
            old(res)@.len() <= k < final(res)@.len() ==> final(res)@[k].0 < files.len() && asset_node(files@, *doc, allow, final(res)@[k].0 as int, final(res)@[k].1),
        forall|j: int, b: bool|
            #![trigger asset_node(files@, *doc, allow, j, b)]
            asset_node(files@, *doc, allow, j, b) ==> exists|k: int|
                old(res)@.len() <= k < final(res)@.len() && #[trigger] final(res)@[k] == (j as usize, b),
{
    let ghost before = res@;
    proof {
        reveal_strlit("AssetIdList");
        reveal_strlit("");
        assert(""@ =~= Seq::<char>::empty());
        assert("AssetIdList"@.len() == 11);
    }
    if !allow {
        return;
    }
    if !text_is(doc.get_text_member("sc_file_source"), "AssetIdList") {
        return;
    }
    let list = match doc.get_text_member("sc_file_asset_id_list") {
        Some(l) => l,
        None => {
            return;
        },
    };
    let root_id: &str = match doc.get_text_member("id") {
        Some(s) => s.as_str(),
        None => "",
    };
    assert(root_id@ == text_member(*doc, "id"@));
    let mut j: usize = 0;
    while j < files.len()
        invariant
            j <= files@.len(),
            allow,
            text_member(*doc, "sc_file_source"@) == "AssetIdList"@,
            member(*doc, "sc_file_asset_id_list"@) == Some(Json::Str(*list)),
            root_id@ == text_member(*doc, "id"@),
            before.len() <= res@.len(),
            forall|m: int| 0 <= m < before.len() ==> res@[m] == before[m],
            forall|m: int|
                before.len() <= m < res@.len() ==> res@[m].0 < files.len() && !res@[m].1
                    && asset_step(files@, *doc, res@[m].0 as int),
            forall|i: int|
                0 <= i < j && #[trigger] asset_step(files@, *doc, i) ==> exists|p: int|
                    before.len() <= p < res@.len() && #[trigger] res@[p] == (i as usize, false),
        decreases files.len() - j,
    {
        proof {
            reveal_strlit("AssetIdList");
            assert("AssetIdList"@.len() == 11);
        }
        let other_source = text_is(files[j].1.get_text_member("sc_file_source"), "AssetIdList");
        let same_list = match files[j].1.get_text_member("sc_file_asset_id_list") {
            Some(o) => text_eq(o.as_str(), list.as_str()),
            None => false,
        };
        let ghost res_before = res@;
        if !text_eq(files[j].0.as_str(), root_id) && other_source && same_list {
            res.push((j, false));
        }
        proof {
            assert forall|i: int|
                0 <= i < j + 1 && #[trigger] asset_step(files@, *doc, i) implies exists|p: int|
                before.len() <= p < res@.len() && #[trigger] res@[p] == (i as usize, false) by {
                if i == j {
                    assert(res@[res@.len() - 1] == (i as usize, false));
                } else {
                    let p = choose|p: int|
                        before.len() <= p < res_before.len() && #[trigger] res_before[p] == (
                            i as usize,
                            false,
                        );
                    assert(res@[p] == res_before[p]);
                }
            }
        }
        j += 1;
    }
}

fn push_other_steps(files: &Vec<(String, Json)>, doc: &Json, res: &mut Vec<(usize, bool)>)
    ensures
        old(res)@.len() <= final(res)@.len(),
        forall|k: int| 0 <= k < old(res)@.len() ==> final(res)@[k] == old(res)@[k],
        forall|k: int|
            old(res)@.len() <= k < final(res)@.len() ==> final(res)@[k].0 < files.len() && other_node(files@, *doc, final(res)@[k].0 as int, final(res)@[k].1),
        forall|j: int, b: bool|
            #![trigger other_node(files@, *doc, j, b)]
            other_node(files@, *doc, j, b) ==> exists|k: int|
                old(res)@.len() <= k < final(res)@.len() && #[trigger] final(res)@[k] == (j as usize, b),
{
    proof {
        reveal_strlit("OtherTomlConfig");
        assert("OtherTomlConfig"@.len() == 15);
    }
    if !text_is(doc.get_text_member("sc_file_source"), "OtherTomlConfig") {
        return;
    }
    match doc.get_text_member("sc_file") {
        Some(id) => {
            proof {
                lemma_name_index(files@, id@);
            }
            match find_name(files, id.as_str()) {
                Some(j) => {
                    res.push((j, true));
                    assert(res@[res@.len() - 1] == (j, true));
                },
                None => {},
            }
        },
        None => {},
    }
}

/// The nodes one step from `doc` resolved with `allow`.
fn successors(files: &Vec<(String, Json)>, doc: &Json, allow: bool) -> (res: Vec<(usize, bool)>)
    ensures
        forall|k: int|
            0 <= k < res@.len() ==> res@[k].0 < files.len() && step(
                files@,
                *doc,
                allow,
                res@[k].0 as int,
                res@[k].1,
            ),
        forall|j: int, b: bool|
            #[trigger] step(files@, *doc, allow, j, b) ==> res@.contains((j as usize, b)),
{
    let mut res: Vec<(usize, bool)> = Vec::new();
    let ghost r0 = res@;
    push_copy_steps(files, doc, allow, &mut res);
    let ghost r1 = res@;
    push_asset_steps(files, doc, allow, &mut res);
    let ghost r2 = res@;
    push_other_steps(files, doc, &mut res);
    proof {
        assert forall|j: int, b: bool| #[trigger] step(files@, *doc, allow, j, b) implies res@.contains(
            (j as usize, b),
        ) by {
            if copy_node(files@, *doc, allow, j, b) {
                let p = choose|p: int| r0.len() <= p < r1.len() && #[trigger] r1[p] == (j as usize, b);
                assert(res@[p] == r1[p]);
            } else if asset_node(files@, *doc, allow, j, b) {
                let p = choose|p: int| r1.len() <= p < r2.len() && #[trigger] r2[p] == (j as usize, b);
                assert(res@[p] == r2[p]);
            } else {
                let p = choose|p: int| r2.len() <= p < res@.len() && #[trigger] res@[p] == (j as usize, b);
            }
        }
        assert forall|k: int| 0 <= k < res@.len() implies res@[k].0 < files.len() && step(
            files@,
            *doc,
            allow,
            res@[k].0 as int,
            res@[k].1,
        ) by {
            if k < r1.len() {
                assert(res@[k] == r1[k]);
            } else if k < r2.len() {
                assert(res@[k] == r2[k]);
            }
        }
    }
    res
}

/// The number of `true` entries.
pub open spec fn count_true(s: Seq<bool>) -> nat
    decreases s.len(),
{
    if s.len() == 0 {
        0
    } else {
        count_true(s.drop_last()) + if s.last() {
            1nat
        } else {
            0nat
        }
    }
}

proof fn lemma_count_true_bound(s: Seq<bool>)
    ensures
        count_true(s) <= s.len(),
    decreases s.len(),
{
    if s.len() > 0 {
        lemma_count_true_bound(s.drop_last());
    }
}

proof fn lemma_count_true_set(s: Seq<bool>, i: int)
    requires
        0 <= i < s.len(),
        !s[i],
    ensures
        count_true(s.update(i, true)) == count_true(s) + 1,
    decreases s.len(),
{
    let t = s.update(i, true);
    if i == s.len() - 1 {
        assert(t.drop_last() =~= s.drop_last());
    } else {
        assert(t.drop_last() =~= s.drop_last().update(i, true));
        lemma_count_true_set(s.drop_last(), i);
    }
}

/// A step always leads to a file of the registry.
proof fn lemma_step_in_range(files: Seq<(String, Json)>, doc: Json, allow: bool, j: int, b: bool)
    requires
        step(files, doc, allow, j, b),
    ensures
        0 <= j < files.len(),
{
    if copy_node(files, doc, allow, j, b) {
        let k = choose|k: int|
            0 <= k < copy_config_entries(doc).len() && #[trigger] names_file(
                files,
                copy_config_entries(doc)[k],
                j,
            );
        if let Json::Str(id) = copy_config_entries(doc)[k] {
            lemma_name_index(files, id@);
        }
    } else if other_node(files, doc, j, b) {
        if let Some(Json::Str(id)) = member(doc, "sc_file"@) {
            lemma_name_index(files, id@);
        }
    }
}

/// A node one step from a reached node (or from the root) is reached.
pub proof fn lemma_reached_step(
    root: Json,
    files: Seq<(String, Json)>,
    allow: bool,
    i: int,
    a: bool,
    j: int,
    b: bool,
)
    requires
        (i == -1 && a == allow) || (0 <= i < files.len() && reached(root, files, allow, i, a)),
        step(files, node_doc(root, files, i), a, j, b),
    ensures
        reached(root, files, allow, j, b),
{
    assert forall|nodes: Set<(int, bool)>|
        nodes.contains((-1, allow)) && closed_under_steps(root, files, nodes) implies #[trigger] nodes.contains(
        (j, b),
    ) by {
        assert(nodes.contains((i, a)));
    }
}

/// Whether node `(j, b)` is marked.
pub open spec fn marked(seen_true: Seq<bool>, seen_false: Seq<bool>, j: int, b: bool) -> bool {
    if b {
        seen_true[j]
    } else {
        seen_false[j]
    }
}

/// Marks each node of `succ` not marked yet and appends it to `order`.
fn visit_all(
    succ: &Vec<(usize, bool)>,
    seen_true: &mut Vec<bool>,
    seen_false: &mut Vec<bool>,
    order: &mut Vec<(usize, bool)>,
)
    requires
        old(seen_true)@.len() == old(seen_false)@.len(),
        forall|p: int| 0 <= p < succ@.len() ==> succ@[p].0 < old(seen_true)@.len(),
        old(order)@.len() == count_true(old(seen_true)@) + count_true(old(seen_false)@),
        forall|k: int|
            0 <= k < old(order)@.len() ==> old(order)@[k].0 < old(seen_true)@.len() && marked(
                old(seen_true)@,
                old(seen_false)@,
                old(order)@[k].0 as int,
                old(order)@[k].1,
            ),
        forall|j: int, b: bool|
            0 <= j < old(seen_true)@.len() && #[trigger] marked(old(seen_true)@, old(seen_false)@, j, b)
                ==> exists|k: int|
                0 <= k < old(order)@.len() && #[trigger] old(order)@[k] == (j as usize, b),
    ensures
        final(seen_true)@.len() == old(seen_true)@.len(),
        final(seen_false)@.len() == old(seen_false)@.len(),
        final(order)@.len() == count_true(final(seen_true)@) + count_true(final(seen_false)@),
        old(order)@.len() <= final(order)@.len(),
        forall|k: int| 0 <= k < old(order)@.len() ==> final(order)@[k] == old(order)@[k],
        forall|k: int|
            0 <= k < final(order)@.len() ==> final(order)@[k].0 < final(seen_true)@.len() && marked(
                final(seen_true)@,
                final(seen_false)@,
                final(order)@[k].0 as int,
                final(order)@[k].1,
            ),
        forall|j: int, b: bool|
            0 <= j < final(seen_true)@.len() && #[trigger] marked(final(seen_true)@, final(seen_false)@, j, b)
                ==> exists|k: int|
                0 <= k < final(order)@.len() && #[trigger] final(order)@[k] == (j as usize, b),
        forall|j: int, b: bool|
            0 <= j < old(seen_true)@.len() && marked(old(seen_true)@, old(seen_false)@, j, b) ==> marked(
                final(seen_true)@,
                final(seen_false)@,
                j,
                b,
            ),
        forall|p: int|
            0 <= p < succ@.len() ==> marked(
                final(seen_true)@,
                final(seen_false)@,
                succ@[p].0 as int,
                succ@[p].1,
            ),
        forall|k: int|
            old(order)@.len() <= k < final(order)@.len() ==> succ@.contains(
                #[trigger] final(order)@[k],
            ),
{
    let ghost order0 = order@;
    let ghost t0 = seen_true@;
    let ghost f0 = seen_false@;
    let n = seen_true.len();
    let mut p: usize = 0;
    while p < succ.len()
        invariant
            n == seen_true@.len(),
            n == seen_false@.len(),
            n == t0.len(),
            forall|q: int| 0 <= q < succ@.len() ==> succ@[q].0 < n,
            p <= succ@.len(),
            order@.len() == count_true(seen_true@) + count_true(seen_false@),
            order0.len() <= order@.len(),
            forall|k: int| 0 <= k < order0.len() ==> order@[k] == order0[k],
            forall|k: int|
                0 <= k < order@.len() ==> order@[k].0 < n && marked(
                    seen_true@,
                    seen_false@,
                    order@[k].0 as int,
                    order@[k].1,
                ),
            forall|j: int, b: bool|
                0 <= j < n && #[trigger] marked(seen_true@, seen_false@, j, b) ==> exists|k: int|
                    0 <= k < order@.len() && #[trigger] order@[k] == (j as usize, b),
            forall|j: int, b: bool|
                0 <= j < n && marked(t0, f0, j, b) ==> marked(seen_true@, seen_false@, j, b),
            forall|q: int|
                0 <= q < p ==> marked(seen_true@, seen_false@, succ@[q].0 as int, succ@[q].1),
            forall|k: int|
                order0.len() <= k < order@.len() ==> succ@.contains(#[trigger] order@[k]),
        decreases succ.len() - p,
    {
        let (j, b) = succ[p];
        let already = if b {
            seen_true[j]
        } else {
            seen_false[j]
        };
        if !already {
            let ghost tb = seen_true@;
            let ghost fb = seen_false@;
            let ghost ob = order@;
            if b {
                proof {
                    lemma_count_true_set(seen_true@, j as int);
                }
                seen_true.set(j, true);
            } else {
                proof {
                    lemma_count_true_set(seen_false@, j as int);
                }
                seen_false.set(j, true);
            }
            order.push((j, b));
            proof {
                assert(order@[order@.len() - 1] == (j, b));
                assert forall|k: int|
                    0 <= k < order@.len() implies order@[k].0 < n && marked(
                    seen_true@,
                    seen_false@,
                    order@[k].0 as int,
                    order@[k].1,
                ) by {
                    if k < ob.len() {
                        assert(order@[k] == ob[k]);
                        assert(marked(tb, fb, ob[k].0 as int, ob[k].1));
                    }
                }
                assert forall|jj: int, bb: bool|
                    0 <= jj < n && #[trigger] marked(
                        seen_true@,
                        seen_false@,
                        jj,
                        bb,
                    ) implies exists|k: int|
                    0 <= k < order@.len() && #[trigger] order@[k] == (jj as usize, bb) by {
                    if jj == j && bb == b {
                        assert(order@[order@.len() - 1] == (jj as usize, bb));
                    } else {
                        assert(marked(tb, fb, jj, bb));
                        let k = choose|k: int| 0 <= k < ob.len() && #[trigger] ob[k] == (jj as usize, bb);
                        assert(order@[k] == ob[k]);
                    }
                }
                assert forall|k: int|
                    order0.len() <= k < order@.len() implies succ@.contains(#[trigger] order@[k]) by {
                    if k == order@.len() - 1 {
                        assert(succ@[p as int] == order@[k]);
                    } else {
                        assert(order@[k] == ob[k]);
                    }
                }
            }
        }
        p += 1;
    }
}

/// For each file of the registry, whether it is reached from `root`
/// resolved with `allow`.
fn reached_files(root: &Json, files: &Vec<(String, Json)>, allow: bool) -> (r: Vec<bool>)
    ensures
        r@.len() == files@.len(),
        forall|j: int| 0 <= j < files@.len() ==> r@[j] == file_reached(*root, files@, allow, j),
{
    let n = files.len();
    let mut seen_true: Vec<bool> = Vec::new();
    let mut seen_false: Vec<bool> = Vec::new();
    let mut j: usize = 0;
    while j < n
        invariant
            j <= n,
            seen_true@.len() == j,
            seen_false@.len() == j,
            count_true(seen_true@) == 0,
            count_true(seen_false@) == 0,
            forall|k: int| 0 <= k < j ==> !seen_true@[k] && !seen_false@[k],
        decreases n - j,
    {
        proof {
            assert(seen_true@.push(false).drop_last() =~= seen_true@);
            assert(seen_false@.push(false).drop_last() =~= seen_false@);
        }
        seen_true.push(false);
        seen_false.push(false);
        j += 1;
    }
    let mut order: Vec<(usize, bool)> = Vec::new();
    let root_succ = successors(files, root, allow);
    visit_all(&root_succ, &mut seen_true, &mut seen_false, &mut order);
    proof {
        assert forall|k: int| 0 <= k < order@.len() implies reached(
            *root,
            files@,
            allow,
            order@[k].0 as int,
            order@[k].1,
        ) by {
            let q = choose|q: int| 0 <= q < root_succ@.len() && root_succ@[q] == order@[k];
            lemma_reached_step(*root, files@, allow, -1, allow, order@[k].0 as int, order@[k].1);
        }
        assert forall|jj: int, bb: bool| #[trigger] step(files@, *root, allow, jj, bb) implies 0 <= jj < n
            && marked(seen_true@, seen_false@, jj, bb) by {
            lemma_step_in_range(files@, *root, allow, jj, bb);
            assert(root_succ@.contains((jj as usize, bb)));
            let q = choose|q: int| 0 <= q < root_succ@.len() && root_succ@[q] == (jj as usize, bb);
        }
    }
    let mut head: usize = 0;
    while head < order.len()
        invariant
            n == files@.len(),
            n == seen_true@.len(),
            n == seen_false@.len(),
            order@.len() == count_true(seen_true@) + count_true(seen_false@),
            head <= order@.len(),
            forall|k: int|
                0 <= k < order@.len() ==> order@[k].0 < n && marked(
                    seen_true@,
                    seen_false@,
                    order@[k].0 as int,
                    order@[k].1,
                ),
            forall|jj: int, bb: bool|
                0 <= jj < n && #[trigger] marked(seen_true@, seen_false@, jj, bb) ==> exists|k: int|
                    0 <= k < order@.len() && #[trigger] order@[k] == (jj as usize, bb),
            forall|k: int|
                0 <= k < order@.len() ==> reached(
                    *root,
                    files@,
                    allow,
                    (#[trigger] order@[k]).0 as int,
                    order@[k].1,
                ),
            forall|k: int, jj: int, bb: bool|
                0 <= k < head && #[trigger] step(
                    files@,
                    files@[order@[k].0 as int].1,
                    order@[k].1,
                    jj,
                    bb,
                ) ==> 0 <= jj < n && marked(seen_true@, seen_false@, jj, bb),
            forall|jj: int, bb: bool|
                #[trigger] step(files@, *root, allow, jj, bb) ==> 0 <= jj < n && marked(
                    seen_true@,
                    seen_false@,
                    jj,
                    bb,
                ),
        decreases 2 * n - head,
    {
        proof {
            lemma_count_true_bound(seen_true@);
            lemma_count_true_bound(seen_false@);
        }
        let (i, a) = order[head];
        let succ = successors(files, &files[i].1, a);
        let ghost t0 = seen_true@;
        let ghost f0 = seen_false@;
        let ghost o0 = order@;
        visit_all(&succ, &mut seen_true, &mut seen_false, &mut order);
        proof {
            assert(order@[head as int] == (i, a));
            assert forall|k: int| 0 <= k < order@.len() implies reached(
                *root,
                files@,
                allow,
                (#[trigger] order@[k]).0 as int,
                order@[k].1,
            ) by {
                if k < o0.len() {
                    assert(order@[k] == o0[k]);
                } else {
                    let q = choose|q: int| 0 <= q < succ@.len() && succ@[q] == order@[k];
                    assert(reached(*root, files@, allow, i as int, a));
                    lemma_reached_step(*root, files@, allow, i as int, a, order@[k].0 as int, order@[k].1);
                }
            }
            assert forall|k: int, jj: int, bb: bool|
                0 <= k < head + 1 && #[trigger] step(
                    files@,
                    files@[order@[k].0 as int].1,
                    order@[k].1,
                    jj,
                    bb,
                ) implies 0 <= jj < n && marked(seen_true@, seen_false@, jj, bb) by {
                assert(order@[k] == o0[k]);
                lemma_step_in_range(files@, files@[order@[k].0 as int].1, order@[k].1, jj, bb);
                if k == head {
                    assert(succ@.contains((jj as usize, bb)));
                    let q = choose|q: int| 0 <= q < succ@.len() && succ@[q] == (jj as usize, bb);
                } else {
                    assert(marked(t0, f0, jj, bb));
                }
            }
            assert forall|jj: int, bb: bool| #[trigger] step(files@, *root, allow, jj, bb) implies 0 <= jj
                < n && marked(seen_true@, seen_false@, jj, bb) by {
                assert(marked(t0, f0, jj, bb));
            }
        }
        head += 1;
    }
    let ghost closed_set = Set::new(
        |x: (int, bool)|
            (x.0 == -1 && x.1 == allow) || (0 <= x.0 < n && marked(seen_true@, seen_false@, x.0, x.1)),
    );
    proof {
        assert forall|i: int, a: bool, jj: int, bb: bool|
            closed_set.contains((i, a)) && -1 <= i < files@.len() && step(
                files@,
                node_doc(*root, files@, i),
                a,
                jj,
                bb,
            ) implies closed_set.contains((jj, bb)) by {
            if i == -1 {
                assert(step(files@, *root, allow, jj, bb));
            } else {
                let k = choose|k: int| 0 <= k < order@.len() && #[trigger] order@[k] == (i as usize, a);
                assert(step(files@, files@[order@[k].0 as int].1, order@[k].1, jj, bb));
            }
        }
        assert(closed_under_steps(*root, files@, closed_set));
        assert(closed_set.contains((-1, allow)));
    }
    let mut r: Vec<bool> = Vec::new();
    let mut j: usize = 0;
    while j < n
        invariant
            n == files@.len(),
            n == seen_true@.len(),
            n == seen_false@.len(),
            j <= n,
            r@.len() == j,
            forall|k: int| 0 <= k < j ==> r@[k] == (seen_true@[k] || seen_false@[k]),
        decreases n - j,
    {
        r.push(seen_true[j] || seen_false[j]);
        j += 1;
    }
    proof {
        assert forall|jj: int| 0 <= jj < n implies r@[jj] == file_reached(*root, files@, allow, jj) by {
            if seen_true@[jj] {
                assert(marked(seen_true@, seen_false@, jj, true));
                let k = choose|k: int| 0 <= k < order@.len() && #[trigger] order@[k] == (jj as usize, true);
            } else if seen_false@[jj] {
                assert(marked(seen_true@, seen_false@, jj, false));
                let k = choose|k: int| 0 <= k < order@.len() && #[trigger] order@[k] == (jj as usize, false);
            } else {
                if reached(*root, files@, allow, jj, true) {
                    assert(closed_set.contains((jj, true)));
                }
                if reached(*root, files@, allow, jj, false) {
                    assert(closed_set.contains((jj, false)));
                }
            }
        }
    }
    r
}

/// Appends `name` to `out` unless `out` holds it already.
fn push_unique(out: &mut Vec<String>, name: &String)
    ensures
        final(out).deep_view() == add_unique(old(out).deep_view(), seq![name@]),
{
    let ghost items = seq![name@];
    let ghost before = out.deep_view();
    assert(items.drop_last() =~= Seq::<Seq<char>>::empty());
    assert(add_unique(before, Seq::<Seq<char>>::empty()) == before);
    assert(items.last() == name@);
    assert(add_unique(before, items) == if before.contains(name@) {
        before
    } else {
        before.push(name@)
    });
    let mut k: usize = 0;
    while k < out.len()
        invariant
            k <= out@.len(),
            before == out.deep_view(),
            before == old(out).deep_view(),
            add_unique(before, seq![name@]) == if before.contains(name@) {
                before
            } else {
                before.push(name@)
            },
            forall|m: int| 0 <= m < k ==> before[m] != name@,
        decreases out.len() - k,
    {
        if text_eq(out[k].as_str(), name.as_str()) {
            assert(before[k as int] == name@);
            assert(before.contains(name@));
            return;
        }
        k += 1;
    }
    out.push(name.clone());
    assert(out.deep_view() =~= before.push(name@));
}

/// Appends to `out` the names of `ms` that it does not hold yet.
fn add_names(out: &mut Vec<String>, ms: &Vec<(String, Json)>)
    ensures
        final(out).deep_view() == add_unique(old(out).deep_view(), member_names(ms@)),
{
    let ghost start = out.deep_view();
    let ghost names = member_names(ms@);
    assert(names.take(0) =~= Seq::<Seq<char>>::empty());
    let mut k: usize = 0;
    while k < ms.len()
        invariant
            k <= ms@.len(),
            names == member_names(ms@),
            out.deep_view() == add_unique(start, names.take(k as int)),
        decreases ms.len() - k,
    {
        push_unique(out, &ms[k].0);
        proof {
            assert(names.take(k + 1) =~= names.take(k as int) + seq![ms@[k as int].0@]);
            lemma_add_unique_concat(start, names.take(k as int), seq![ms@[k as int].0@]);
        }
        k += 1;
    }
    assert(names.take(ms@.len() as int) =~= names);
}

/// Appends to `out` the direct bindings of `doc` that it does not hold yet.
fn add_direct_bindings(out: &mut Vec<String>, doc: &Json)
    ensures
        final(out).deep_view() == add_unique(old(out).deep_view(), direct_bindings(*doc)),
{
    let ghost start = out.deep_view();
    match doc.get_member("bindings") {
        Some(Json::Object(ms)) => add_names(out, ms),
        _ => {
            assert(member_names(object_members(member(*doc, "bindings"@))) =~= Seq::<
                Seq<char>,
            >::empty());
        },
    }
    let ghost middle = out.deep_view();
    match doc.get_member("buttons") {
        Some(Json::Object(ms)) => add_names(out, ms),
        _ => {
            assert(member_names(object_members(member(*doc, "buttons"@))) =~= Seq::<
                Seq<char>,
            >::empty());
        },
    }
    proof {
        lemma_add_unique_concat(
            start,
            member_names(object_members(member(*doc, "bindings"@))),
            member_names(object_members(member(*doc, "buttons"@))),
        );
    }
}

/// All binding ids that `root` can refer to: its own `bindings` and
/// `buttons`, and those of every file reached from it through
/// `copy_configs`, through a shared `sc_file_asset_id_list` (followed when
/// `allow_asset_id_list` holds, and not again from a file reached that way)
/// and through an `OtherTomlConfig` `sc_file`. Each id is listed once: those
/// of `root` first, then those of the reached files in registry order.
pub fn resolve_bindings_for_file(root: &Json, registry: &FileRegistry, allow_asset_id_list: bool) -> (r:
    Vec<String>)
    ensures
        r.deep_view() == resolved_bindings(*root, registry@, allow_asset_id_list),
{
    let files = registry.files();
    let reached = reached_files(root, files, allow_asset_id_list);
    let mut out: Vec<String> = Vec::new();
    assert(out.deep_view() =~= Seq::<Seq<char>>::empty());
    add_direct_bindings(&mut out, root);
    let ghost first = direct_bindings(*root);
    assert(first + reached_bindings(*root, files@, allow_asset_id_list, 0) =~= first);
    let mut j: usize = 0;
    while j < files.len()
        invariant
            j <= files@.len(),
            reached@.len() == files@.len(),
            forall|k: int|
                0 <= k < files@.len() ==> reached@[k] == file_reached(
                    *root,
                    files@,
                    allow_asset_id_list,
                    k,
                ),
            first == direct_bindings(*root),
            out.deep_view() == add_unique(
                Seq::empty(),
                first + reached_bindings(*root, files@, allow_asset_id_list, j as nat),
            ),
        decreases files.len() - j,
    {
        let ghost before = first + reached_bindings(*root, files@, allow_asset_id_list, j as nat);
        if reached[j] {
            add_direct_bindings(&mut out, &files[j].1);
            proof {
                lemma_add_unique_concat(Seq::empty(), before, direct_bindings(files@[j as int].1));
                assert(first + reached_bindings(*root, files@, allow_asset_id_list, (j + 1) as nat)
                    =~= before + direct_bindings(files@[j as int].1));
            }
        } else {
            assert(first + reached_bindings(*root, files@, allow_asset_id_list, (j + 1) as nat)
                =~= before);
        }
        j += 1;
    }
    out
}

/// What `reached_bindings` holds: the direct bindings of the reached files.
pub proof fn lemma_reached_bindings_content(
    root: Json,
    files: Seq<(String, Json)>,
    allow: bool,
    n: nat,
    s: Seq<char>,
)
    requires
        n <= files.len(),
    ensures
        reached_bindings(root, files, allow, n).contains(s) <==> exists|j: int|
            0 <= j < n && file_reached(root, files, allow, j) && #[trigger] direct_bindings(
                files[j].1,
            ).contains(s),
    decreases n,
{
    if n > 0 {
        let before = reached_bindings(root, files, allow, (n - 1) as nat);
        let chunk = if file_reached(root, files, allow, n - 1) {
            direct_bindings(files[n - 1].1)
        } else {
            Seq::empty()
        };
        assert(reached_bindings(root, files, allow, n) == before + chunk);
        lemma_reached_bindings_content(root, files, allow, (n - 1) as nat, s);
        if (before + chunk).contains(s) {
            let k = choose|k: int| 0 <= k < (before + chunk).len() && (before + chunk)[k] == s;
            if k < before.len() {
                assert(before[k] == s);
            } else {
                assert(chunk[k - before.len()] == s);
                assert(direct_bindings(files[n - 1].1).contains(s));
            }
        }
        if exists|j: int|
            0 <= j < n && file_reached(root, files, allow, j) && #[trigger] direct_bindings(
                files[j].1,
            ).contains(s) {
            let j = choose|j: int|
                0 <= j < n && file_reached(root, files, allow, j) && #[trigger] direct_bindings(
                    files[j].1,
                ).contains(s);
            if j < n - 1 {
                let k = choose|k: int| 0 <= k < before.len() && before[k] == s;
                assert((before + chunk)[k] == s);
            } else {
                let k = choose|k: int| 0 <= k < chunk.len() && chunk[k] == s;
                assert((before + chunk)[before.len() + k] == s);
            }
        }
    }
}

/// The resolved bindings are the root's own and those of the reached
/// files, each exactly once.
pub proof fn lemma_resolved_bindings_content(
    root: Json,
    files: Seq<(String, Json)>,
    allow: bool,
    s: Seq<char>,
)
    ensures
        resolved_bindings(root, files, allow).no_duplicates(),
        resolved_bindings(root, files, allow).contains(s) <==> (direct_bindings(root).contains(s)
            || exists|j: int|
            0 <= j < files.len() && file_reached(root, files, allow, j) && #[trigger] direct_bindings(
                files[j].1,
            ).contains(s)),
{
    let first = direct_bindings(root);
    let rest = reached_bindings(root, files, allow, files.len());
    lemma_add_unique_content(Seq::empty(), first + rest);
    lemma_reached_bindings_content(root, files, allow, files.len(), s);
    if (first + rest).contains(s) {
        let k = choose|k: int| 0 <= k < (first + rest).len() && (first + rest)[k] == s;
        if k < first.len() {
            assert(first[k] == s);
        } else {
            assert(rest[k - first.len()] == s);
        }
    }
    if first.contains(s) {
        let k = choose|k: int| 0 <= k < first.len() && first[k] == s;
        assert((first + rest)[k] == s);
    }
    if rest.contains(s) {
        let k = choose|k: int| 0 <= k < rest.len() && rest[k] == s;
        assert((first + rest)[first.len() + k] == s);
    }
}

/// The errors for a reference, at `path`, to binding `id` where the root
/// can refer to `bindings`: none where `id` is one of them; else one
/// message, which lists the bindings when `verbose` is at least 1.
pub open spec fn binding_ref_errors(
    path: Seq<char>,
    id: Seq<char>,
    bindings: Seq<Seq<char>>,
    verbose: u8,
) -> Seq<Seq<char>> {
    if bindings.len() == 0 {
        seq![
            path + ": bindingId '"@ + id
                + "' references, but no 'bindings' section exists in root"@,
        ]
    } else if !bindings.contains(id) {
        seq![
            path + ": bindingId '"@ + id + "' not found in 'bindings'"@ + if verbose >= 1 {
                " (available: "@ + debug_list_text(bindings) + ")"@
            } else {
                Seq::empty()
            },
        ]
    } else {
        Seq::empty()
    }
}

/// A message for a reference reads `path: bindingId 'id'…`, and only an
/// id that is not among the bindings gets one.
pub proof fn lemma_binding_ref_error_shape(
    path: Seq<char>,
    id: Seq<char>,
    bindings: Seq<Seq<char>>,
    verbose: u8,
    e: Seq<char>,
)
    requires
        binding_ref_errors(path, id, bindings, verbose).contains(e),
    ensures
        !bindings.contains(id),
        (path + ": bindingId '"@ + id + "'"@).is_prefix_of(e),
{
    let errs = binding_ref_errors(path, id, bindings, verbose);
    let k = choose|k: int| 0 <= k < errs.len() && errs[k] == e;
    let head = path + ": bindingId '"@ + id;
    reveal_strlit("'");
    reveal_strlit("' references, but no 'bindings' section exists in root");
    reveal_strlit("' not found in 'bindings'");
    if bindings.len() == 0 {
        assert(!bindings.contains(id));
        let tail = "' references, but no 'bindings' section exists in root"@;
        assert(e == head + tail);
        assert(head + "'"@ =~= (head + tail).subrange(0, head.len() + 1int));
    } else {
        let opt = if verbose >= 1 {
            " (available: "@ + debug_list_text(bindings) + ")"@
        } else {
            Seq::empty()
        };
        let tail = "' not found in 'bindings'"@;
        assert(e == head + tail + opt);
        assert(head + "'"@ =~= (head + tail + opt).subrange(0, head.len() + 1int));
    }
}

/// Whether `list` holds `name`.
pub fn holds_name(list: &Vec<String>, name: &str) -> (r: bool)
    ensures
        r == list.deep_view().contains(name@),
{
    let ghost all = list.deep_view();
    let mut k: usize = 0;
    while k < list.len()
        invariant
            k <= list@.len(),
            all == list.deep_view(),
            forall|m: int| 0 <= m < k ==> all[m] != name@,
        decreases list.len() - k,
    {
        if text_eq(list[k].as_str(), name) {
            assert(all[k as int] == name@);
            return true;
        }
        k += 1;
    }
    false
}

/// Checks a `bindingId` reference: the string `node`, found at `path` in
/// `root`, must name one of the bindings that `root` resolves to.
pub fn validate_binding_ref(
    node: &Json,
    root: &Json,
    registry: &FileRegistry,
    path: &str,
    verbose: u8,
) -> (r: Vec<String>)
    requires
        node is Str,
    ensures
        match *node {
            Json::Str(id) => r.deep_view() == binding_ref_errors(
                path@,
                id@,
                resolved_bindings(*root, registry@, true),
                verbose,
            ),
            _ => false,
        },
{
    let binding_id = match node {
        Json::Str(s) => s,
        _ => {
            return Vec::new();
        },
    };
    let bindings = resolve_bindings_for_file(root, registry, true);
    if bindings.len() == 0 {
        let mut message = String::from_str(path);
        message.append(": bindingId '");
        message.append(binding_id.as_str());
        message.append("' references, but no 'bindings' section exists in root");
        let mut r = Vec::new();
        r.push(message);
        assert(r.deep_view() =~= binding_ref_errors(
            path@,
            binding_id@,
            resolved_bindings(*root, registry@, true),
            verbose,
        ));
        return r;
    }
    if !holds_name(&bindings, binding_id.as_str()) {
        let mut message = String::from_str(path);
        message.append(": bindingId '");
        message.append(binding_id.as_str());
        message.append("' not found in 'bindings'");
        let ghost head = message@;
        if verbose >= 1 {
            message.append(" (available: ");
            let listed = debug_list(&bindings);
            message.append(listed.as_str());
            message.append(")");
            assert(message@ =~= head + (" (available: "@ + debug_list_text(bindings.deep_view())
                + ")"@));
        } else {
            assert(message@ =~= head + Seq::<char>::empty());
        }
        let mut r = Vec::new();
        r.push(message);
        assert(r.deep_view() =~= binding_ref_errors(
            path@,
            binding_id@,
            resolved_bindings(*root, registry@, true),
            verbose,
        ));
        return r;
    }
    let r = Vec::new();
    assert(r.deep_view() =~= binding_ref_errors(
        path@,
        binding_id@,
        resolved_bindings(*root, registry@, true),
        verbose,
    ));
    r
}

/// A `bindingId` reference is answered by at most one message, and by none
/// exactly where the id is a binding of the root itself or of a file
/// reached from it (through `copy_configs`, a shared asset id list or an
/// `OtherTomlConfig` `sc_file`).
pub proof fn lemma_binding_ref_verdict(
    root: Json,
    files: Seq<(String, Json)>,
    path: Seq<char>,
    id: Seq<char>,
    verbose: u8,
)
    ensures
        binding_ref_errors(path, id, resolved_bindings(root, files, true), verbose).len() <= 1,
        binding_ref_errors(path, id, resolved_bindings(root, files, true), verbose).len() == 0 <==> (
        direct_bindings(root).contains(id) || exists|j: int|
            0 <= j < files.len() && file_reached(root, files, true, j) && #[trigger] direct_bindings(
                files[j].1,
            ).contains(id)),
{
    let bindings = resolved_bindings(root, files, true);
    lemma_resolved_bindings_content(root, files, true, id);
    if bindings.len() == 0 {
        assert(!bindings.contains(id));
    }
}

/// Every binding of a file that the root refers to (through
/// `copy_configs`, a shared asset id list where `allow` holds, or an
/// `OtherTomlConfig` `sc_file`) is among the root's resolved bindings, and
/// so are those of every file that a reached file refers to.
pub proof fn lemma_referenced_bindings_included(
    root: Json,
    files: Seq<(String, Json)>,
    allow: bool,
    i: int,
    a: bool,
    j: int,
    b: bool,
    s: Seq<char>,
)
    requires
        (i == -1 && a == allow) || (0 <= i < files.len() && reached(root, files, allow, i, a)),
        step(files, node_doc(root, files, i), a, j, b),
        direct_bindings(files[j].1).contains(s),
    ensures
        reached(root, files, allow, j, b),
        resolved_bindings(root, files, allow).contains(s),
{
    lemma_reached_step(root, files, allow, i, a, j, b);
    lemma_step_in_range(files, node_doc(root, files, i), a, j, b);
    lemma_resolved_bindings_content(root, files, allow, s);
    assert(file_reached(root, files, allow, j));
}

/// Every binding that resolving `inner` (with `inner_allow`) gives, resolving
/// `outer` (with `outer_allow`) gives too.
pub open spec fn resolves_within(
    files: Seq<(String, Json)>,
    inner: Json,
    inner_allow: bool,
    outer: Json,
    outer_allow: bool,
) -> bool {
    forall|s: Seq<char>|
        #[trigger] resolved_bindings(inner, files, inner_allow).contains(s) ==> resolved_bindings(
            outer,
            files,
            outer_allow,
        ).contains(s)
}

/// A node reached from file `j`, resolved as a root of its own with `b`,
/// is reached from any root that reaches node `(j, b)`.
proof fn lemma_reached_through(
    root: Json,
    files: Seq<(String, Json)>,
    allow: bool,
    j: int,
    b: bool,
    k: int,
    c: bool,
)
    requires
        0 <= j < files.len(),
        reached(root, files, allow, j, b),
        reached(files[j].1, files, b, k, c),
        0 <= k < files.len(),
    ensures
        reached(root, files, allow, k, c),
{
    let inner = files[j].1;
    let nodes = Set::new(
        |p: (int, bool)|
            (p.0 == -1 && p.1 == b) || (0 <= p.0 < files.len() && reached(root, files, allow, p.0, p.1)),
    );
    assert forall|i: int, a: bool, m: int, d: bool|
        #![trigger nodes.contains((i, a)), nodes.contains((m, d))]
        nodes.contains((i, a)) && -1 <= i < files.len() && step(files, node_doc(inner, files, i), a, m, d)
            implies nodes.contains((m, d)) by {
        lemma_step_in_range(files, node_doc(inner, files, i), a, m, d);
        if i == -1 {
            assert(node_doc(inner, files, i) == node_doc(root, files, j));
            lemma_reached_step(root, files, allow, j, b, m, d);
        } else {
            assert(node_doc(inner, files, i) == node_doc(root, files, i));
            lemma_reached_step(root, files, allow, i, a, m, d);
        }
    }
    assert(nodes.contains((k, c)));
}

/// Whatever a reached file resolves to, resolved as a root of its own with
/// the flag it was reached with, the root resolves to as well.
pub proof fn lemma_reached_resolution_included(
    root: Json,
    files: Seq<(String, Json)>,
    allow: bool,
    j: int,
    b: bool,
)
    requires
        0 <= j < files.len(),
        reached(root, files, allow, j, b),
    ensures
        resolves_within(files, files[j].1, b, root, allow),
{
    let inner = files[j].1;
    assert forall|s: Seq<char>| #[trigger]
        resolved_bindings(inner, files, b).contains(s) implies resolved_bindings(
        root,
        files,
        allow,
    ).contains(s) by {
        lemma_resolved_bindings_content(inner, files, b, s);
        lemma_resolved_bindings_content(root, files, allow, s);
        assert(file_reached(root, files, allow, j));
        if !direct_bindings(inner).contains(s) {
            let k = choose|k: int|
                0 <= k < files.len() && file_reached(inner, files, b, k) && #[trigger] direct_bindings(
                    files[k].1,
                ).contains(s);
            if reached(inner, files, b, k, true) {
                lemma_reached_through(root, files, allow, j, b, k, true);
            } else {
                lemma_reached_through(root, files, allow, j, b, k, false);
            }
            assert(file_reached(root, files, allow, k));
        }
    }
}

/// The full resolution of a file that the root refers to is part of the
/// root's: that of a file named in `copy_configs` (resolved with the root's
/// flag), that of a file sharing the root's asset id list where the root
/// follows asset id lists (resolved without them), and that of the
/// `OtherTomlConfig` `sc_file` (resolved with them, whatever the root's
/// flag).
pub proof fn lemma_referenced_resolution_included(
    root: Json,
    files: Seq<(String, Json)>,
    allow: bool,
    j: int,
)
    ensures
        copy_step(files, root, j) ==> resolves_within(files, files[j].1, allow, root, allow),
        allow && asset_step(files, root, j) ==> resolves_within(files, files[j].1, false, root, allow),
        other_config_step(files, root, j) ==> resolves_within(files, files[j].1, true, root, allow),
{
    if copy_step(files, root, j) {
        assert(step(files, node_doc(root, files, -1), allow, j, allow));
        lemma_step_in_range(files, root, allow, j, allow);
        lemma_reached_step(root, files, allow, -1, allow, j, allow);
        lemma_reached_resolution_included(root, files, allow, j, allow);
    }
    if allow && asset_step(files, root, j) {
        assert(step(files, node_doc(root, files, -1), allow, j, false));
        lemma_reached_step(root, files, allow, -1, allow, j, false);
        lemma_reached_resolution_included(root, files, allow, j, false);
    }
    if other_config_step(files, root, j) {
        assert(step(files, node_doc(root, files, -1), allow, j, true));
        lemma_step_in_range(files, root, allow, j, true);
        lemma_reached_step(root, files, allow, -1, allow, j, true);
        lemma_reached_resolution_included(root, files, allow, j, true);
    }
}

/// The full resolution of a file that `copy_configs` names, as the
/// registry gives it back, is part of the root's.
pub proof fn lemma_copy_config_resolution_included(
    root: Json,
    files: Seq<(String, Json)>,
    allow: bool,
    c: String,
    f: Json,
)
    requires
        copy_config_entries(root).contains(Json::Str(c)),
        members_get(files, c@) == Some(f),
    ensures
        resolves_within(files, f, allow, root, allow),
{
    lemma_name_index(files, c@);
    let j = name_index(files, c@)->0;
    let k = choose|k: int|
        0 <= k < copy_config_entries(root).len() && copy_config_entries(root)[k] == Json::Str(c);
    assert(names_file(files, copy_config_entries(root)[k], j));
    lemma_referenced_resolution_included(root, files, allow, j);
}

/// The full resolution of the `OtherTomlConfig` `sc_file`, as the registry
/// gives it back, resolved with asset id lists, is part of the root's,
/// whatever the root's flag.
pub proof fn lemma_other_config_resolution_included(
    root: Json,
    files: Seq<(String, Json)>,
    allow: bool,
    c: String,
    f: Json,
)
    requires
        text_member(root, "sc_file_source"@) == "OtherTomlConfig"@,
        member(root, "sc_file"@) == Some(Json::Str(c)),
        members_get(files, c@) == Some(f),
    ensures
        resolves_within(files, f, true, root, allow),
{
    lemma_name_index(files, c@);
    let j = name_index(files, c@)->0;
    assert(other_config_step(files, root, j));
    lemma_referenced_resolution_included(root, files, allow, j);
}

/// Following asset id lists only adds bindings: the resolution without
/// them is part of the resolution with them.
pub proof fn lemma_asset_lists_only_add(root: Json, files: Seq<(String, Json)>)
    ensures
        resolves_within(files, root, false, root, true),
{
    let nodes = Set::new(
        |p: (int, bool)|
            (p.0 == -1 && !p.1) || (0 <= p.0 < files.len() && (reached(root, files, true, p.0, true)
                || reached(root, files, true, p.0, p.1))),
    );
    assert forall|i: int, a: bool, m: int, d: bool|
        #![trigger nodes.contains((i, a)), nodes.contains((m, d))]
        nodes.contains((i, a)) && -1 <= i < files.len() && step(files, node_doc(root, files, i), a, m, d)
            implies nodes.contains((m, d)) by {
        let doc = node_doc(root, files, i);
        lemma_step_in_range(files, doc, a, m, d);
        if i >= 0 && reached(root, files, true, i, a) {
            lemma_reached_step(root, files, true, i, a, m, d);
        } else {
            // the root with `false`, or a file reached with `true`: every
            // step from it is a step from the same document with `true`
            if copy_node(files, doc, a, m, d) || other_node(files, doc, m, d) {
                assert(step(files, doc, true, m, true));
                lemma_reached_step(root, files, true, i, true, m, true);
            } else {
                assert(step(files, doc, true, m, false));
                lemma_reached_step(root, files, true, i, true, m, false);
            }
        }
    }
    assert forall|s: Seq<char>| #[trigger]
        resolved_bindings(root, files, false).contains(s) implies resolved_bindings(
        root,
        files,
        true,
    ).contains(s) by {
        lemma_resolved_bindings_content(root, files, false, s);
        lemma_resolved_bindings_content(root, files, true, s);
        if !direct_bindings(root).contains(s) {
            let k = choose|k: int|
                0 <= k < files.len() && file_reached(root, files, false, k) && #[trigger] direct_bindings(
                    files[k].1,
                ).contains(s);
            let c = reached(root, files, false, k, true);
            assert(nodes.contains((k, c)));
            assert(file_reached(root, files, true, k));
        }
    }
}

/// Adding an entry at the end keeps the position of every id found before.
proof fn lemma_name_index_push(ms: Seq<(String, Json)>, x: (String, Json), key: Seq<char>)
    ensures
        name_index(ms, key) is Some ==> name_index(ms.push(x), key) == name_index(ms, key),
        name_index(ms, key) is None && x.0@ != key ==> name_index(ms.push(x), key) is None,
    decreases ms.len(),
{
    if ms.len() == 0 {
        assert(ms.push(x).drop_first() =~= Seq::<(String, Json)>::empty());
        assert(name_index(ms.push(x).drop_first(), key) is None);
    } else {
        assert(ms.push(x).drop_first() =~= ms.drop_first().push(x));
        assert(ms.push(x)[0] == ms[0]);
        lemma_name_index_push(ms.drop_first(), x, key);
    }
}

/// Registering a document under an id not registered before only adds to
/// what any root resolves to.
pub proof fn lemma_new_registration_only_adds(
    root: Json,
    files: Seq<(String, Json)>,
    allow: bool,
    id: String,
    data: Json,
)
    requires
        members_get(files, id@) is None,
    ensures
        forall|s: Seq<char>|
            #[trigger] resolved_bindings(root, files, allow).contains(s) ==> resolved_bindings(
                root,
                registered(files, id, data),
                allow,
            ).contains(s),
{
    lemma_name_index(files, id@);
    let more = registered(files, id, data);
    assert(more == files.push((id, data)));
    assert forall|doc: Json, a: bool, m: int, d: bool|
        #[trigger] step(files, doc, a, m, d) implies step(more, doc, a, m, d) by {
        lemma_step_in_range(files, doc, a, m, d);
        if copy_node(files, doc, a, m, d) {
            let k = choose|k: int|
                0 <= k < copy_config_entries(doc).len() && #[trigger] names_file(
                    files,
                    copy_config_entries(doc)[k],
                    m,
                );
            if let Json::Str(c) = copy_config_entries(doc)[k] {
                lemma_name_index_push(files, (id, data), c@);
            }
            assert(names_file(more, copy_config_entries(doc)[k], m));
        } else if asset_node(files, doc, a, m, d) {
            assert(more[m] == files[m]);
        } else {
            if let Some(Json::Str(c)) = member(doc, "sc_file"@) {
                lemma_name_index_push(files, (id, data), c@);
            }
        }
    }
    let nodes = Set::new(
        |p: (int, bool)|
            (p.0 == -1 && p.1 == allow) || (0 <= p.0 < files.len() && reached(root, more, allow, p.0, p.1)),
    );
    assert forall|i: int, a: bool, m: int, d: bool|
        #![trigger nodes.contains((i, a)), nodes.contains((m, d))]
        nodes.contains((i, a)) && -1 <= i < files.len() && step(files, node_doc(root, files, i), a, m, d)
            implies nodes.contains((m, d)) by {
        lemma_step_in_range(files, node_doc(root, files, i), a, m, d);
        if i >= 0 {
            assert(more[i] == files[i]);
        }
        assert(node_doc(root, more, i) == node_doc(root, files, i));
        assert(step(more, node_doc(root, more, i), a, m, d));
        lemma_reached_step(root, more, allow, i, a, m, d);
    }
    assert forall|s: Seq<char>| #[trigger]
        resolved_bindings(root, files, allow).contains(s) implies resolved_bindings(
        root,
        more,
        allow,
    ).contains(s) by {
        lemma_resolved_bindings_content(root, files, allow, s);
        lemma_resolved_bindings_content(root, more, allow, s);
        if !direct_bindings(root).contains(s) {
            let k = choose|k: int|
                0 <= k < files.len() && file_reached(root, files, allow, k) && #[trigger] direct_bindings(
                    files[k].1,
                ).contains(s);
            let c = reached(root, files, allow, k, true);
            assert(nodes.contains((k, c)));
            assert(more[k] == files[k]);
            assert(file_reached(root, more, allow, k));
        }
    }
}

} // verus!
