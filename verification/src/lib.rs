//! Reorganizes a multi-package source tree by turning flat single-file
//! modules (`foo.rs` beside a directory `foo/` that has no `mod.rs`) into
//! directory-style modules (`foo/mod.rs`).
//!
//! The pipeline works on an in-memory snapshot of a directory tree
//! ([`Fs`]): package discovery, candidate scanning and the migration step
//! are all verified against that model. Reading a real tree into the
//! snapshot and performing the actual renames is left to the caller.

mod args;
mod discovery;
mod fs_model;
mod laws;
mod migrate;
mod scanner;

pub use args::Args;
pub use args::RunOutcome;
pub use args::run_outcome;
pub use discovery::CratesScanner;
pub use discovery::all_discovered;
pub use discovery::ancestors_first;
pub use discovery::covers_discovered;
pub use discovery::discovered;
pub use discovery::distinct_paths;
pub use discovery::is_pkg_root;
pub use discovery::manifest_file_name;
pub use discovery::paths_view;
pub use discovery::src_dir_name;
pub use discovery::visited_dir;
pub use fs_model::Fs;
pub use fs_model::FsKind;
pub use fs_model::FsPath;
pub use fs_model::is_dir_at;
pub use fs_model::is_file_at;
pub use laws::apply_batch;
pub use laws::contains_dst;
pub use laws::lemma_discovery_skips_source_dirs;
pub use laws::lemma_existing_root_file_blocks;
pub use laws::lemma_migrations_idempotent;
pub use laws::lemma_no_root_inside_source_subtree;
pub use laws::lemma_root_file_never_source;
pub use laws::lemma_scan_reports_candidate_once;
pub use migrate::ModuleMigrator;
pub use scanner::FlatModuleScanner;
pub use scanner::ScanError;
pub use scanner::base_of;
pub use scanner::block_bounds;
pub use scanner::crate_block;
pub use scanner::grouped_by_roots;
pub use scanner::scan_result_ordered;
pub use scanner::cands_complete;
pub use scanner::cands_sound;
pub use scanner::contains_src;
pub use scanner::dst_of;
pub use scanner::has_rs_extension;
pub use scanner::is_module_candidate;
pub use scanner::is_rust_file;
pub use scanner::mod_rs_name;
pub use scanner::mod_stem;
pub use scanner::no_shared_candidates;
pub use scanner::pairs_view;
pub use scanner::rust_module_file;
pub use scanner::scan;
pub use scanner::scan_result_ok;
pub use scanner::sibling_of;
pub use scanner::sources_distinct;
pub use scanner::stem_of;
