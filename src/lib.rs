//! Verified post-processing of prose lints: span checks, ordering, overlap
//! resolution and the records handed across the library's boundary.

pub mod lint;
pub mod resolve;
pub mod report;
pub mod engine;
pub mod tokens;
