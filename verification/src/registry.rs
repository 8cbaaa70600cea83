use vstd::prelude::*;

use crate::document::{parse_toml_document, toml_tree, DocumentError};
use crate::json::{find_name, lemma_name_index, member, members_get, name_index, Json};

verus! {

/// Whether no two entries of a registry carry the same id.
pub open spec fn distinct_ids(files: Seq<(String, Json)>) -> bool {
    forall|i: int, j: int|
        0 <= i < files.len() && 0 <= j < files.len() && i != j ==> files[i].0@ != files[j].0@
}

/// The registry after `data` is registered under `id`: the entry of that id
/// is replaced where there is one, else a new entry is added at the end.
pub open spec fn registered(files: Seq<(String, Json)>, id: String, data: Json) -> Seq<
    (String, Json),
> {
    match name_index(files, id@) {
        Some(i) => files.update(i, (id, data)),
        None => files.push((id, data)),
    }
}

/// All loaded `.ui` documents, each under its `id`. Cross-file references
/// (such as `copy_configs`) are resolved through it.
///
/// Its view is the sequence of `(id, document)` entries, in the order in
/// which the ids were first registered; no id occurs twice.
pub struct FileRegistry {
    files: Vec<(String, Json)>,
}

impl View for FileRegistry {
    type V = Seq<(String, Json)>;

    closed spec fn view(&self) -> Seq<(String, Json)> {
        self.files@
    }
}

impl FileRegistry {
    #[verifier::type_invariant]
    closed spec fn ids_are_distinct(self) -> bool {
        distinct_ids(self.files@)
    }

    /// An empty registry.
    pub fn new() -> (r: FileRegistry)
        ensures
            r@ == Seq::<(String, Json)>::empty(),
    {
        FileRegistry { files: Vec::new() }
    }

    /// Registers `data` under `file_id`, replacing what was registered
    /// under that id before.
    pub fn register(&mut self, file_id: String, data: Json)
        ensures
            final(self)@ == registered(old(self)@, file_id, data),
            distinct_ids(final(self)@),
    {
        proof {
            use_type_invariant(&*self);
            lemma_name_index(self.files@, file_id@);
        }
        match find_name(&self.files, file_id.as_str()) {
            Some(i) => {
                let ghost old_files = self.files@;
                let mut files = Vec::new();
                std::mem::swap(&mut files, &mut self.files);
                files.set(i, (file_id, data));
                proof {
                    assert forall|a: int, b: int|
                        0 <= a < files@.len() && 0 <= b < files@.len() && a != b implies files@[a].0@
                        != files@[b].0@ by {
                        if a != i && b != i {
                            assert(files@[a] == old_files[a] && files@[b] == old_files[b]);
                        } else if a == i {
                            assert(files@[b] == old_files[b]);
                        } else {
                            assert(files@[a] == old_files[a]);
                        }
                    }
                }
                self.files = files;
            },
            None => {
                let ghost old_files = self.files@;
                let mut files = Vec::new();
                std::mem::swap(&mut files, &mut self.files);
                files.push((file_id, data));
                proof {
                    assert forall|a: int, b: int|
                        0 <= a < files@.len() && 0 <= b < files@.len() && a != b implies files@[a].0@
                        != files@[b].0@ by {
                        if a < old_files.len() && b < old_files.len() {
                            assert(files@[a] == old_files[a] && files@[b] == old_files[b]);
                        } else if a < old_files.len() {
                            assert(files@[a] == old_files[a]);
                        } else {
                            assert(files@[b] == old_files[b]);
                        }
                    }
                }
                self.files = files;
            },
        }
    }

    /// The document registered under `file_id`.
    pub fn get(&self, file_id: &str) -> (r: Option<&Json>)
        ensures
            r is Some == members_get(self@, file_id@) is Some,
            r matches Some(d) ==> members_get(self@, file_id@) == Some(*d),
            distinct_ids(self@),
    {
        proof {
            use_type_invariant(self);
            lemma_name_index(self.files@, file_id@);
        }
        match find_name(&self.files, file_id) {
            Some(i) => Some(&self.files[i].1),
            None => None,
        }
    }

    /// Registers a parsed document under its `id` member, where that member
    /// is a string; a document without one is not registered.
    pub fn register_document(&mut self, data: Json)
        ensures
            member(data, "id"@) matches Some(Json::Str(id)) ==> final(self)@ == registered(
                old(self)@,
                id,
                data,
            ),
            !(member(data, "id"@) matches Some(Json::Str(_))) ==> final(self)@ == old(self)@,
    {
        let id = match data.get_text_member("id") {
            Some(s) => Some(s.clone()),
            None => None,
        };
        match id {
            Some(id) => self.register(id, data),
            None => {},
        }
    }

    /// Parses the bytes of a `.ui` file as TOML and registers the document
    /// under its `id` (see `register_document`); an error where the bytes do
    /// not parse, and then nothing is registered.
    pub fn register_from_toml(&mut self, bytes: &[u8]) -> (r: Result<(), DocumentError>)
        ensures
            r is Ok == toml_tree(bytes@) is Some,
            match toml_tree(bytes@) {
                Some(data) => match member(data, "id"@) {
                    Some(Json::Str(id)) => final(self)@ == registered(old(self)@, id, data),
                    _ => final(self)@ == old(self)@,
                },
                None => final(self)@ == old(self)@,
            },
            r matches Err(e) ==> e is Toml,
    {
        match parse_toml_document(bytes) {
            Ok(doc) => {
                self.register_document(doc.into_tree());
                Ok(())
            },
            Err(e) => Err(e),
        }
    }

    /// All entries, in registration order.
    pub fn files(&self) -> (r: &Vec<(String, Json)>)
        ensures
            r@ == self@,
            distinct_ids(self@),
    {
        proof {
            use_type_invariant(self);
        }
        &self.files
    }
}

/// Registering a document under an id and then looking that id up gives
/// the document back; every other id gives what it gave before.
pub proof fn lemma_register_then_get(
    files: Seq<(String, Json)>,
    id: String,
    data: Json,
    other: Seq<char>,
)
    requires
        distinct_ids(files),
    ensures
        members_get(registered(files, id, data), id@) == Some(data),
        other != id@ ==> members_get(registered(files, id, data), other) == members_get(
            files,
            other,
        ),
        distinct_ids(registered(files, id, data)),
{
    let r = registered(files, id, data);
    lemma_name_index(files, id@);
    lemma_name_index(files, other);
    lemma_name_index(r, id@);
    lemma_name_index(r, other);
    match name_index(files, id@) {
        Some(i) => {
            assert(r[i].0@ == id@);
            assert forall|k: int| 0 <= k < r.len() && k != i implies r[k] == files[k] by {}
        },
        None => {
            assert(r[files.len() as int] == (id, data));
            assert forall|k: int| 0 <= k < files.len() implies r[k] == files[k] by {}
        },
    }
}

/// In a registry whose ids are distinct, looking an id up gives a document
/// exactly when the registry's list holds that id with that document.
pub proof fn lemma_get_matches_list(files: Seq<(String, Json)>, id: Seq<char>, data: Json)
    requires
        distinct_ids(files),
    ensures
        members_get(files, id) == Some(data) <==> exists|i: int|
            0 <= i < files.len() && #[trigger] files[i].0@ == id && files[i].1 == data,
        members_get(files, id) is None <==> forall|i: int|
            0 <= i < files.len() ==> #[trigger] files[i].0@ != id,
{
    lemma_name_index(files, id);
    match name_index(files, id) {
        Some(k) => {
            assert forall|i: int|
                0 <= i < files.len() && #[trigger] files[i].0@ == id implies i == k by {}
            if members_get(files, id) == Some(data) {
                assert(files[k].0@ == id && files[k].1 == data);
            }
        },
        None => {},
    }
}

/// Whatever was registered, in whatever order, the list holds each id once,
/// with the document registered under it last: registering keeps the ids
/// distinct, holds the new document under its id, and leaves every other
/// entry of the list where it was.
pub proof fn lemma_register_keeps_list(files: Seq<(String, Json)>, id: String, data: Json)
    requires
        distinct_ids(files),
    ensures
        distinct_ids(registered(files, id, data)),
        exists|i: int|
            0 <= i < registered(files, id, data).len() && #[trigger] registered(
                files,
                id,
                data,
            )[i] == (id, data),
        forall|k: int|
            0 <= k < files.len() && files[k].0@ != id@ ==> #[trigger] registered(files, id, data)[k]
                == files[k],
        registered(files, id, data).len() == files.len() + (if name_index(files, id@) is Some {
            0int
        } else {
            1int
        }),
{
    lemma_register_then_get(files, id, data, id@);
    lemma_name_index(files, id@);
    let r = registered(files, id, data);
    match name_index(files, id@) {
        Some(i) => {
            assert(r[i] == (id, data));
        },
        None => {
            assert(r[files.len() as int] == (id, data));
        },
    }
}

} // verus!
