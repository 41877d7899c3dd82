//! Layers of the index and their stored form.

pub mod codec;
pub mod freeze;
pub mod laws;
pub mod layers;
pub mod listing;
pub mod path_index;
pub mod slot_map;
pub mod snapshot;
