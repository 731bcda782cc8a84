//! Versioned structures.

pub mod mapx_raw;
