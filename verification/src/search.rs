//! Searching what a pane shows.
pub mod bytes;
pub mod capture;
pub mod collect;
pub mod collect_laws;
pub mod conflict_rows;
pub mod decode;
pub mod document;
pub mod editor;
pub mod general;
pub mod hits;
pub mod inline_patch;
pub mod joined;
pub mod literal_laws;
pub mod literal_rows;
pub mod long_rows;
pub mod matcher;
pub mod needle;
pub mod pattern_laws;
pub mod pattern_rows;
pub mod pieces;
pub mod prefix;
pub mod rows;
pub mod scan;
pub mod scan_laws;
pub mod session;
pub mod session_laws;
pub mod text_laws;
pub mod source;
pub mod stream;
pub mod trigrams;
pub mod view_rows;
pub mod wrap;
