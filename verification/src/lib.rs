//! In-process telemetry emitter for a validator node.
//!
//! Lifecycle events produced by worker threads are queued in a bounded
//! buffer, drained by a single supervisor, encoded with a fixed-layout
//! binary codec, and streamed to a remote collector.  The event model,
//! the codec, the buffer policy and the supervisor state machine live
//! here; the TCP socket, the background thread and the cross-thread
//! channel live with the embedding program.

pub mod buffer;
pub mod codec;
pub mod emitter;
pub mod event;
pub mod time;
