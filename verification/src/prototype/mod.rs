//! Host-side twins of the shaders, and what measuring them takes.

pub mod bench;
pub mod columns;
pub mod hybrid;
pub mod lanes;
pub mod laws;
pub mod matcher;
pub mod weights;
pub mod window;
