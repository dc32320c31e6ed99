//! Patches, the rows they are shown as, and the caches that hold those rows.
pub mod hunk_header;
pub mod mark_laws;
pub mod patch_laws;
pub mod patch_rows;
pub mod split_rows;
pub mod split_meta;
pub mod visible_map;
pub mod collapsed;
pub mod collapsed_laws;
pub mod fold_laws;
pub mod header_laws;
pub mod cache_laws;
pub mod change_flags;
pub mod visible_rows;
pub mod file_cache;
pub mod syntax_cache;
pub mod patch_cache;
pub mod side_syntax;
