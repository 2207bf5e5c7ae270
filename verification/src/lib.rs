//! Synchronize and merge digital-logic waveform traces.
//!
//! A trace is a header declaring named signals plus a chronological log of
//! value changes keyed by timestamp. Traces captured separately share no
//! time origin, so they are aligned on a common reset signal: the last
//! time each trace sees its reset inactive (logic-1, active-low) is that
//! trace's reset-end, and merging shifts the earlier-resetting trace
//! forward until both reset-end points coincide. The merged trace holds
//! every signal of both inputs on one timeline, with name collisions
//! renamed and an explicit all-signals-low frame at time zero.
//!
//! - [`schema`]: the declaration tree, its depth-first flattening into the
//!   ordered signal list, and dotted-path resolution.
//! - [`events`]: the event log, an ordered timestamp-to-changes map.
//! - [`trace`]: loading a trace from header and stream, and the
//!   synchronize-and-merge step itself.
//! - [`laws`]: proofs that relate the pieces: a written trace re-parses to
//!   the same data, and folding several traces is order-independent.

pub mod events;
pub mod schema;
pub mod trace;
pub mod laws;
