//! Candidate indexing and ranking core of a command launcher.
pub mod text;
pub mod line;
pub mod ranking;
pub mod fuzzy;
pub mod history;
pub mod selection;
pub mod sources;
pub mod config;
pub mod session;
