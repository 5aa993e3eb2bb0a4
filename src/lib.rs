//! Traceroute graph construction and analysis: stable node identifiers for
//! observed addresses, bucketed edge shards, path reconstruction with
//! synthetic placeholders for silent hops, and graph statistics.

pub mod structs;
pub mod bucket;
pub mod merge;
pub mod sparse_list;
pub mod graph;
pub mod dedup;
pub mod degree;
pub mod brandes;
pub mod parameters;
pub mod processor_util;
pub mod collections;
pub mod pipeline;
