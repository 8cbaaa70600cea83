# sc_ui_schema

Semantic validation of Supercell's `.ui` files (TOML documents described by a
JSON schema), as a library verified with Verus, and a small command-line tool.

- `src/` — the verified library. A document is a `json::Json` tree; the
  registry (`registry::FileRegistry`) holds every loaded `.ui` file under its
  `id`. `bindings::resolve_bindings_for_file` collects the bindings a file can
  refer to (its own `bindings` and `buttons`, and those of every file reached
  through `copy_configs`, a shared `sc_file_asset_id_list`, or an
  `OtherTomlConfig` `sc_file`); `walk::validate_semantics` walks a document
  along the schema and checks every `bindingId` it meets. The contracts
  state each result over the spec functions beside the code; proof functions
  state what holds across calls (resolution only grows with what is
  registered and followed, and `error_origin` traces every error back to an
  unresolved string of the document at a path within the walk's).
  `document` parses the files (TOML through `toml`, the schema through
  `serde_json`) and writes the JSON copy of a document; `pattern` compiles
  `patternProperties` with `regex`.
- `app/main.rs` — the command-line tool: finds and reads the `.ui` files,
  writes the JSON copies, runs the external `jsonschema` validator and prints
  the library's report.
- `tests/` — tests of the library on concrete documents.

Run the tool from the schema repository's root: it reads `src/ui.schema.json`
and checks every `.ui` file below the current directory (`-s` skips the JSON
schema validation, `-v`/`-vv` add detail).
