//! Ranking of files and directories.

pub mod arith;
pub mod context;
pub mod dir_laws;
pub mod dirs;
pub mod files;
pub mod formula;
pub mod frecency;
pub mod highlight;
pub mod hits;
pub mod laws;
pub mod page_laws;
pub mod paginate;
pub mod rows;
pub mod search_laws;
