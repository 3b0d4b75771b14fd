//! Integer geometry and decision logic for stitching vertically scrolled screenshots.
//!
//! The floating-point scoring of candidate offsets lives with the caller; this crate
//! decides which columns and rows are sampled, in which order offsets are searched,
//! which regions are compared, and which feature points are kept.
pub mod column_match;
pub mod fast_match;
pub mod frame;
pub mod orb;
pub mod search;
pub mod template_match;
