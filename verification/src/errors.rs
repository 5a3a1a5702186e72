//! Error taxonomy of the core: every failure a caller can observe, and
//! nothing transport-level (connection faults never enter the library).

use vstd::prelude::*;

verus! {

/// The payload was not a well-formed telemetry document: not valid
/// structured data, a required field absent, or a field of the wrong type.
#[derive(Clone, Copy, Debug, PartialEq, Eq, Structural)]
pub struct DecodeError;

/// A liveness operation named a device outside the configured tracking
/// set; the message is discarded, never tracked.
#[derive(Clone, Copy, Debug, PartialEq, Eq, Structural)]
pub enum TrackerError {
    UnknownDevice,
}

/// The durable store refused a write or read: the schema is missing, or
/// the append-only table can accept no further row identifier.
#[derive(Clone, Copy, Debug, PartialEq, Eq, Structural)]
pub enum StorageError {
    MissingSchema,
    IdsExhausted,
}

/// A device has never reported, so it has no latest row to fetch; the
/// caller skips backfill for it rather than fabricate a baseline.
#[derive(Clone, Copy, Debug, PartialEq, Eq, Structural)]
pub struct NotFound;

/// What can go wrong while one incoming message is ingested.
#[derive(Clone, Copy, Debug, PartialEq, Eq, Structural)]
pub enum IngestError {
    Decode(DecodeError),
    UnknownDevice,
    Storage(StorageError),
}

} // verus!
