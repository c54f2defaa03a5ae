//! Bound Book Format: an ordered, deduplicated container for page-based media.
pub mod archive;
pub mod bbf;
pub mod codec;
