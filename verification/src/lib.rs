//! Automatically generated change descriptions for a version-controlled
//! history: diff rendering, prompt preparation, and transactional rewrite
//! of commit metadata with descendant rebasing.
pub mod command;
pub mod config;
pub mod detection;
pub mod diff;
pub mod error;
pub mod hook;
pub mod llm;
pub mod model;
pub mod update;
pub mod text;
