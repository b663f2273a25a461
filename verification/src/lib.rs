//! Activity-to-span lifecycle tracking for an observed run.
//!
//! Host-reported activity events (begin, result, end) are turned into a
//! deterministic sequence of span operations: opening and closing spans,
//! attaching events, and a final flush. The engine here is pure
//! state-machine logic with proved lifecycle guarantees; shipping the
//! operations to a telemetry backend is the caller's concern.
//!
//! - [`activity`]: identifiers, kinds, records, and the validated decoding
//!   of raw host fields.
//! - [`engine`]: the span lifecycle engine, a message-driven state machine
//!   that emits span operations.
//! - [`laws`]: run-level guarantees proved over the engine's transition
//!   functions.
//! - [`boundary`]: translation of host-native arguments into engine
//!   messages.
//! - [`headers`]: parsing and validation of the export pipeline's header
//!   configuration.
//! - [`text`]: rendering of field values for span names, events and
//!   attributes.

pub mod activity;
pub mod boundary;
pub mod engine;
pub mod headers;
pub mod laws;
pub mod text;

pub use activity::ActivityId;
pub use activity::ActivityKind;
pub use activity::ActivityRecord;
pub use activity::Field;
pub use activity::RawField;
pub use activity::ResultKind;
