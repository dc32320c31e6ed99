//! Resolving merge conflicts.
pub mod blocks;
pub mod highlights;
pub mod model;
pub mod pick_laws;
pub mod protection;
pub mod regions;
pub mod split;
pub mod groups;
pub mod provenance;
pub mod provenance_laws;
pub mod output;
pub mod output_laws;
pub mod save;
pub mod save_laws;
