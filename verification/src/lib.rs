//! Telemetry-record ingestion: wire-format decoding, batch bridging over a
//! bounded channel, windowed aggregation, and pass-through tallying for a
//! stream of fixed-size binary records produced by an external probe.

pub mod bridge;
pub mod channel;
pub mod codec;
pub mod pipeline;
pub mod records;
pub mod selector;
pub mod tally;
pub mod window;
