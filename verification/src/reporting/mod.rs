//! Presentation of validation runs and completed reports.
//!
//! Rendering produces text together with the semantic role of each piece;
//! turning roles into terminal styles happens where the text is printed.

pub mod execution;
pub mod format;
pub mod result;
pub mod theme;
pub mod tree;
