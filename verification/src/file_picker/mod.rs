//! The layered index and its operations.

pub mod adopt;
pub mod arrange;
pub mod compact;
pub mod attach;
pub mod entries;
pub mod entry_laws;
pub mod export;
pub mod layer_ops;
pub mod laws;
pub mod picker;
pub mod restore;
pub mod row_laws;
pub mod sync;
