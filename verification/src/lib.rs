//! Completion logic for `Cargo.toml` documents.
pub mod ascii;
pub mod completion;
pub mod crate_index;
pub mod digits;
pub mod feature_index;
pub mod index_cache;
pub mod laws;
pub mod position;
pub mod sorted_names;
pub mod text;
pub mod toml_context;
pub mod toml_scan;
pub mod toml_table;
