//! A verified model of the authorship-notes store of a git repository.
pub mod authorship;
pub mod bre;
pub mod cleanup;
pub mod error;
pub mod git_output;
pub mod grep;
pub mod laws;
pub mod lines;
pub mod notes_api;
pub mod oid;
pub mod repository;
pub mod table;
pub mod text;
