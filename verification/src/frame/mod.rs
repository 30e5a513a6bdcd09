//! Audio frames.

pub mod header;
