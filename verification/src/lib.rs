//! Verified core of a parallel k-means clustering library.
//!
//! The numeric work of k-means (distances, sums and means of floating-point
//! coordinates) lives outside this crate; what is verified here is everything
//! that decides how that work is organised: how many worker threads run, how
//! rows and clusters are split among them, how the per-thread results are put
//! back together, which rows seed the initial centers, how points are filed
//! into clusters, how CSV records are taken in, and the text format of the
//! center log.
pub mod center_log;
pub mod chunks;
pub mod decimal;
pub mod model;
pub mod records;
pub mod sampling;
pub mod text;
pub mod threads;
