//! Deterministic-interleaving instruments for auditing a lock-free reference swap, and the debt
//! protocol that they audit.
//!
//! * [`litmus`]: counters of the branches that loads, writes and guard drops take, and one-shot
//!   checkpoints at which a driver can park a thread.
//! * [`strategy`]: a rendezvous seam inside the helping fallback, and interleave hooks at the
//!   linearization points.
//! * [`debt`]: a reclamation domain with logical threads, in which the protocol runs from
//!   checkpoint to checkpoint.
//! * [`laws`]: what holds of all of these over every sequence of operations.

pub mod debt;
pub mod laws;
pub mod litmus;
pub mod strategy;
pub mod text;
