//! Verified core of a git repository summary generator.
pub mod text;
pub mod order;
pub mod counting;
pub mod reports;
pub mod tree;
pub mod history;
pub mod render;
