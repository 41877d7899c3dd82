//! Layered, in-memory file index: path arenas, layer snapshots, fuzzy ranking
//! and the planning side of the GPU matcher.

pub mod bytes;
pub mod error;
pub mod file_picker;
pub mod gpu;
pub mod index;
pub mod match_offsets;
pub mod parallelism;
pub mod prototype;
pub mod score;
pub mod simd_path;
pub mod sorting;
pub mod stable_vec;
pub mod types;
