//! Ingestion-and-liveness engine for smart power-metering telemetry.
//!
//! Devices publish periodic measurements (current, voltage, power, energy)
//! over a publish/subscribe channel. This library holds the verified core:
//! the payload codec, the per-device last-seen tracker, an append-only
//! in-memory model of the durable store, and the ingestion engine that ties
//! them together and fabricates zero-draw continuity rows when a device
//! goes silent. Transport and durable I/O live outside the library.

pub mod codec;
pub mod engine;
pub mod errors;
pub mod reading;
pub mod roundtrip;
pub mod store;
pub mod tracker;
