//! Core logic of a fault-tolerant telemetry pipeline: CRC-32-checksummed
//! telemetry frames, a ring buffer of the last frames of each channel with
//! statistics over the frames it holds, a counter
//! registry, the partition table of a simulated network, fault-injection
//! plans, and the round-robin ingestion of frames into a small cluster.

pub mod cluster;
pub mod encoding;
pub mod telemetry;
pub mod metrics;
pub mod transport;
pub mod fault;
pub mod consensus;
pub mod node;
