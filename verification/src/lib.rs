//! Macros and zone models of a game client: what is decided and computed, apart
//! from drawing, files and the network.
//!
//! The macro books, their editor, their palette and the sequencer that runs them
//! are in the modules whose names start with `macro`. The models of a zone are
//! requested, loaded, placed and retired in those that start with `mmb`, and
//! merged into one mesh for each part in `zone_bake`.
#![allow(unused_imports)]

pub mod asset_map;
pub mod geometry;
pub mod kept;
pub mod macro_editor;
pub mod macro_exec;
pub mod macro_input;
pub mod macro_palette;
pub mod macro_provider;
pub mod macro_store;
pub mod macros;
pub mod mmb_cache;
pub mod mmb_load;
pub mod mmb_material;
pub mod mmb_pass;
pub mod mmb_request;
pub mod mmb_retire;
pub mod scalar;
pub mod stable_order;
pub mod text;
pub mod zone_bake;
