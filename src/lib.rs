//! Scoring and inspection of node clusterings of large graphs.
pub mod bitmap;
pub mod graph;
pub mod clustering;
pub mod metrics;
