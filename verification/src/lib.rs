//! Verified core of a biosignal recording pipeline: a per-channel
//! time-indexed sample store with windowed queries and interpolation,
//! a channel router that assigns synthetic timestamps to sensor batches,
//! and a recorder that stages samples in memory, folds them into a
//! bounded cache, and plans disk flushes.

pub mod channels;
pub mod config;
pub mod device;
pub mod error;
pub mod events;
pub mod recorder;
pub mod timeseries;
pub mod visualization;
