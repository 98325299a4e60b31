//! Job management core of a three-way replicated block storage upstairs:
//! job-id allocation, dependency computation, per-client job state, the
//! acknowledgement rules, retirement at flushes, replay, initial
//! reconciliation and the live-repair state machine.
pub mod types;
pub mod ack;
pub mod ring;
pub mod deps;
pub mod downstairs;
pub mod live_repair;
pub mod reconcile;
pub mod invariants;
pub mod messages;
