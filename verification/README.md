# cratelite

Completions for `Cargo.toml`: crate names, versions and features, offered by a language server.

`src/` is the library, written in Verus. Each function states what it returns, and Verus proves it.

- `ascii`, `text`, `digits`, `sorted_names`: bytes, strings, numbers and lists of names
- `position`: lines, offsets and positions of a document
- `toml_scan`, `toml_table`, `toml_context`: what a cursor in a manifest is about to complete
- `crate_index`, `index_cache`: the index of crates, and the age of its copy on disk
- `feature_index`: the choice of a version, its features, and the cache of fetched records
- `completion`: open documents, requests, and the items that are offered

The laws that hold across functions are the public proof functions whose names start with `law_`.
What the library takes from `semver`, `serde_json`, `flate2` and the standard library is stated in the
contracts of the functions marked `external_body` and of the items `assume_specification`.

`app/` is the server around the library: files, downloads and the protocol. `tests/` runs the library
on concrete values.
