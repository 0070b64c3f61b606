//! Metrics, match bookkeeping, bench-report decisions and inspector state
//! for a small DDS playground: publisher/subscriber counters, per-publisher
//! loss detection, a log-2 latency histogram, rolling sparkline history,
//! the discovery registry and the verdict rules of the bench viewer.

mod clock;
pub mod hex;
pub mod bench;
pub mod config;
pub mod demo;
pub mod dto;
pub mod history;
pub mod latency;
pub mod matches;
pub mod pub_metrics;
pub mod registry;
pub mod rows;
pub mod sub_metrics;
