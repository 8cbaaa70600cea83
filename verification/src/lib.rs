//! Semantic checks for Supercell's `.ui` (TOML) files: every `bindingId`
//! that a file holds where its JSON schema expects one must name a binding
//! that the file can reach, directly or through the files it refers to.
//!
//! - `json`: the document tree and member lookup.
//! - `document`: parsing `.ui` (TOML) and schema (JSON) files, and the
//!   JSON copy of a document.
//! - `text`: text comparison, paths and `Debug`-style lists.
//! - `registry`: the loaded files, by id.
//! - `bindings`: which bindings a file reaches, and the `bindingId` check.
//! - `pattern`: `patternProperties` regexes.
//! - `walk`: the walk of a document along its schema.
//! - `error_origin`: where each error of a walk comes from, and what
//!   follows for the errors that a document can have.
//! - `walk_coverage`: every part of a node that the schema describes is
//!   walked, and its errors are among the walk's.
//! - `report`: exit codes and report lines of the command-line tool.

pub mod json;
pub mod document;
pub mod text;
pub mod registry;
pub mod bindings;
pub mod pattern;
pub mod walk;
pub mod error_origin;
pub mod walk_coverage;
pub mod report;
