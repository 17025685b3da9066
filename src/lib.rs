//! Recovers a failed build from dependency version conflicts: reads the
//! build diagnostics, picks candidate versions from registry data, and
//! enumerates version combinations in a fixed, reproducible order.

pub mod combinations;
pub mod diagnostics;
pub mod error;
pub mod versions;
pub mod manifest;
pub mod resolution;
