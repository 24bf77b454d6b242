//! Turning raw log lines into templates and typed variables.

pub mod cache;
pub mod classify;
pub mod cluster;
pub mod config;
pub mod drain3;
pub mod growth;
pub mod history;
pub mod keeping;
pub mod kinds;
pub mod laws;
pub mod matching;
pub mod meaning;
pub mod places;
pub mod shapes;
pub mod state;
pub mod tree;
