//! Versioned configuration and report document types.

pub mod config;
pub mod report;
