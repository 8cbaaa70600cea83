use vstd::prelude::*;
use vstd::string::*;

use crate::json::{has_text_member, member, Json};

verus! {

/// serde_json's value tree, carried opaque.
#[verifier::external_type_specification]
#[verifier::external_body]
pub struct ExValue(serde_json::Value);

/// The toml crate's parse error, carried opaque.
#[verifier::external_type_specification]
#[verifier::external_body]
pub struct ExTomlError(toml::de::Error);

/// serde_json's error, carried opaque.
#[verifier::external_type_specification]
#[verifier::external_body]
pub struct ExJsonError(serde_json::Error);

/// The tree that `toml::from_slice` parses `bytes` into (as a serde_json
/// value); nothing where it refuses them.
pub uninterp spec fn toml_tree(bytes: Seq<u8>) -> Option<Json>;

/// The tree that `serde_json::from_slice` parses `bytes` into; nothing
/// where it refuses them.
pub uninterp spec fn json_tree(bytes: Seq<u8>) -> Option<Json>;

/// The text that `serde_json::to_string_pretty` writes for a tree; nothing
/// where it fails.
pub uninterp spec fn pretty_text(tree: Json) -> Option<Seq<char>>;

/// The object tree after `serde_json::Map::insert` of the string member
/// `key: text`.
pub uninterp spec fn with_text_member(tree: Json, key: Seq<char>, text: Seq<char>) -> Json;

/// A parsed document: serde_json's value and the library's tree of it.
/// Its view is the tree. The tree is always the value converted node for
/// node: both fields are private, and only the wrappers of this file write
/// them, each converting the value it has just built or changed.
pub struct Document {
    value: serde_json::Value,
    tree: Json,
}

impl View for Document {
    type V = Json;

    closed spec fn view(&self) -> Json {
        self.tree
    }
}

/// Why a document could not be parsed or written.
#[derive(Debug)]
pub enum DocumentError {
    /// The TOML parser refused the bytes.
    Toml(toml::de::Error),
    /// serde_json refused the bytes, or could not write the value.
    Json(serde_json::Error),
}

/// The library's tree of a serde_json value, node for node: numbers by
/// their text, members in the map's order.
#[verifier::external_body]
fn tree_of_value(value: &serde_json::Value) -> Json {
    match value {
        serde_json::Value::Null => Json::Null,
        serde_json::Value::Bool(b) => Json::Bool(*b),
        serde_json::Value::Number(n) => Json::Number(n.to_string()),
        serde_json::Value::String(s) => Json::Str(s.clone()),
        serde_json::Value::Array(items) => Json::Array(items.iter().map(tree_of_value).collect()),
        serde_json::Value::Object(members) => Json::Object(
            members.iter().map(|(k, v)| (k.clone(), tree_of_value(v))).collect(),
        ),
    }
}

/// `toml::from_slice` into a serde_json value. Claimed: it succeeds exactly
/// where `toml_tree` of the bytes is something, and the tree is that; a
/// TOML document is a table, which serde_json reads as an object.
#[verifier::external_body]
fn toml_from_slice(bytes: &[u8]) -> (r: Result<Document, toml::de::Error>)
    ensures
        r is Ok == toml_tree(bytes@) is Some,
        r matches Ok(d) ==> toml_tree(bytes@) == Some(d@),
        r matches Ok(d) ==> d@ is Object,
{
    match toml::from_slice::<serde_json::Value>(bytes) {
        Ok(value) => {
            let tree = tree_of_value(&value);
            Ok(Document { value, tree })
        },
        Err(e) => Err(e),
    }
}

/// `serde_json::from_slice` into a value. Claimed: it succeeds exactly
/// where `json_tree` of the bytes is something, and the tree is that.
#[verifier::external_body]
fn json_from_slice(bytes: &[u8]) -> (r: Result<Document, serde_json::Error>)
    ensures
        r is Ok == json_tree(bytes@) is Some,
        r matches Ok(d) ==> json_tree(bytes@) == Some(d@),
{
    match serde_json::from_slice::<serde_json::Value>(bytes) {
        Ok(value) => {
            let tree = tree_of_value(&value);
            Ok(Document { value, tree })
        },
        Err(e) => Err(e),
    }
}

/// `serde_json::to_string_pretty` of the document's value. Claimed: the
/// text is `pretty_text` of the tree, and the call fails exactly where
/// that is nothing.
#[verifier::external_body]
fn to_string_pretty(doc: &Document) -> (r: Result<String, serde_json::Error>)
    ensures
        r is Ok == pretty_text(doc@) is Some,
        r matches Ok(t) ==> pretty_text(doc@) == Some(t@),
{
    serde_json::to_string_pretty(&doc.value)
}

/// `serde_json::Map::insert` of the string member `key: text` into an
/// object document. Claimed: the tree becomes `with_text_member` of the
/// old tree; it stays an object whose member `key` is the string `text`,
/// and every other member is as before (as the map's documentation says
/// of `insert` and `get`).
#[verifier::external_body]
fn map_insert_text(doc: &mut Document, key: &str, text: &str)
    requires
        old(doc)@ is Object,
    ensures
        final(doc)@ == with_text_member(old(doc)@, key@, text@),
        final(doc)@ is Object,
        has_text_member(final(doc)@, key@, text@),
        forall|k: Seq<char>| k != key@ ==> member(final(doc)@, k) == member(old(doc)@, k),
{
    if let serde_json::Value::Object(members) = &mut doc.value {
        members.insert(key.to_string(), serde_json::Value::String(text.to_string()));
    }
    doc.tree = tree_of_value(&doc.value);
}

impl Document {
    /// The document's tree.
    pub fn tree(&self) -> (r: &Json)
        ensures
            *r == self@,
    {
        &self.tree
    }

    /// The document's tree, taken out of it.
    pub fn into_tree(self) -> (r: Json)
        ensures
            r == self@,
    {
        self.tree
    }
}

/// Parses a `.ui` file's bytes as TOML.
pub fn parse_toml_document(bytes: &[u8]) -> (r: Result<Document, DocumentError>)
    ensures
        r is Ok == toml_tree(bytes@) is Some,
        r matches Ok(d) ==> toml_tree(bytes@) == Some(d@),
        r matches Ok(d) ==> d@ is Object,
        r matches Err(e) ==> e is Toml,
{
    match toml_from_slice(bytes) {
        Ok(d) => Ok(d),
        Err(e) => Err(DocumentError::Toml(e)),
    }
}

/// Parses the schema file's bytes as JSON.
pub fn parse_json_document(bytes: &[u8]) -> (r: Result<Document, DocumentError>)
    ensures
        r is Ok == json_tree(bytes@) is Some,
        r matches Ok(d) ==> json_tree(bytes@) == Some(d@),
        r matches Err(e) ==> e is Json,
{
    match json_from_slice(bytes) {
        Ok(d) => Ok(d),
        Err(e) => Err(DocumentError::Json(e)),
    }
}

/// Adds the `$schema` member that points the JSON copy of a document at
/// its schema; a member of that name is replaced.
pub fn add_schema_reference(doc: &mut Document, schema_ref: &str)
    requires
        old(doc)@ is Object,
    ensures
        final(doc)@ == with_text_member(old(doc)@, "$schema"@, schema_ref@),
        has_text_member(final(doc)@, "$schema"@, schema_ref@),
        forall|k: Seq<char>| k != "$schema"@ ==> member(final(doc)@, k) == member(old(doc)@, k),
{
    map_insert_text(doc, "$schema", schema_ref);
}

/// The text of the JSON copy of a document: the pretty-printed JSON and a
/// final newline.
pub fn json_copy_text(doc: &Document) -> (r: Result<String, DocumentError>)
    ensures
        r is Ok == pretty_text(doc@) is Some,
        r matches Ok(t) ==> t@ == pretty_text(doc@)->0 + "\n"@,
        r matches Err(e) ==> e is Json,
{
    match to_string_pretty(doc) {
        Ok(text) => {
            let mut text = text;
            text.append("\n");
            Ok(text)
        },
        Err(e) => Err(DocumentError::Json(e)),
    }
}

} // verus!
