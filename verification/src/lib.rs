//! A verified core for an HTTP/1.1 load generator.
//!
//! The crate holds the load-execution logic: apportioning connections and
//! request quotas across workers, the deterministic URI and payload
//! generators that feed the S3 workload, the traffic state machine, the
//! per-request hook chain, and the statistics collection and aggregation.
//! Transport, scheduling and rendering live outside the library.

pub mod checksum;
pub mod config;
pub mod duration_format;
pub mod engine;
pub mod hooks;
pub mod stats;
pub mod stream;
pub mod traffic;
pub mod uri;
pub mod util;
