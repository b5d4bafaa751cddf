//! Semantic validation of parsed workspace-validator configuration.

pub mod directories;
pub mod parameters;
pub mod validation;
