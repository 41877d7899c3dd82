//! The planning side of the GPU matcher: what is uploaded, which shaders run,
//! and what their output means.

pub mod index;
pub mod laws;
pub mod matcher;
pub mod pack;
pub mod plan_laws;
pub mod readback;
pub mod scalar;
pub mod search;
pub mod subgroup;
pub mod text;
pub mod topk;
