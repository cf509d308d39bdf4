pub mod git_collector;
pub mod embedder;
pub mod layout;
