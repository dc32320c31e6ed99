//! Verified logic behind a diff, preview and merge pane.
use vstd::prelude::*;

pub mod conflict;
pub mod diff;
pub mod digest;
pub mod disk;
pub mod disk_laws;
pub mod lines;
pub mod num;
pub mod outline;
pub mod outside;
pub mod preview;
pub mod preview_laws;
pub mod scroll;
pub mod search;
pub mod text;
pub mod utf;
pub mod view;
pub mod view_laws;

verus! {

} // verus!
