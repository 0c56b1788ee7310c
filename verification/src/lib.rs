//! Sequencing and recovery core of a shuffle Slice.

pub mod actor;
pub mod append;
pub mod checkpoint;
pub mod drain;
pub mod epochs;
pub mod flush;
pub mod frontier;
pub mod gap;
pub mod heap;
pub mod keyed;
pub mod laws;
pub mod order;
pub mod outcomes;
pub mod producer;
pub mod producer_map;
pub mod read;
pub mod reading;
pub mod reduction;
pub mod request;
pub mod sequence;
pub mod session;
pub mod topology;
pub mod uuid;
