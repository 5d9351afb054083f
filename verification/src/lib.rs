//! Verified scheduling core of a deterministic robot runtime.

pub mod aligner;
pub mod answer;
pub mod assembled;
pub mod error;
pub mod fixed;
pub mod graph;
pub mod inventory;
pub mod keys;
pub mod lanes;
pub mod lexical;
pub mod logstats;
pub mod materialized;
pub mod memory;
pub mod model;
pub mod order;
pub mod parallel_rt;
pub mod placeholder;
pub mod proposal;
pub mod propose;
pub mod schedule;
pub mod schedule_profile;
pub mod search;
pub mod shape;
pub mod signature;
pub mod sorted;
pub mod stats;
pub mod strmap;
pub mod sums;
pub mod text;
pub mod timeline;
pub mod timing_profile;
pub mod validity;
pub mod varint;
