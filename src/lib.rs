//! Robust rank aggregation of per-guide measurements into gene-level results.
//!
//! The library works on order keys: each measurement enters as an `i64` that
//! compares exactly as the measurement does, so that ranking, grouping and
//! the final ordering are exact integer computations. The caller evaluates
//! the floating-point parts (Beta distribution functions, means, the FDR
//! adjustment) from what the library lays out.
pub mod assembly;
pub mod grouping;
pub mod guides;
pub mod order_stats;
pub mod pipeline;
pub mod ranking;
