//! Diff-dialect parsing: shared text helpers, the common line-scanning
//! grammar, and the two dialect entry points.

pub mod code_review;
pub mod magit;
pub mod scan;
pub mod text;
pub mod utils;
