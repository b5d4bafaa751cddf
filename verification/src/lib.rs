//! Declarative, shell-free validation graphs for heterogeneous workspaces.
//!
//! The library is organised in four stages: `config` validates a parsed
//! document, `planning` derives an immutable execution closure, `execution`
//! decides how each planned step is classified and aggregated, and `reporting`
//! renders the resulting versioned report.
#![allow(unused_imports)]

pub mod cli;
pub mod config;
pub mod contracts;
pub mod dag;
pub mod error;
pub mod execution;
pub mod fixtures;
pub mod inspection;
pub mod planning;
pub mod reporting;
pub mod repository;
pub mod text;
pub mod versions;
