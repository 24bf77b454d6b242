//! Compresses raw log lines into structural patterns: lines are grouped into
//! clusters with a common template, and the parts in which they differ are told
//! apart by what they look like.

pub mod args;
pub mod extraction;
pub mod input;
pub mod text;
pub mod types;
pub mod words;

pub use args::Args;
