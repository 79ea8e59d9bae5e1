//! A store of directory bookmarks: short keys that stand for paths, with a
//! count of how often each was visited.

pub mod bookmark;
pub mod error;
pub mod laws;
pub mod listing;
mod machine;
pub mod rank;
pub mod report;
pub mod store;
pub mod text;
