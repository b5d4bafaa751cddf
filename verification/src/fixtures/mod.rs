//! The sample crates that the outcome fixtures validate.

pub mod fail;
pub mod pass;
