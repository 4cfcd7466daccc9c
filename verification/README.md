# Litmus instruments for a reference swap

A lock-free reference swap lets readers load a reference-counted value while writers replace it. A
reader does not touch the count: it leaves a *debt* in a slot of its thread, and a writer that takes
a value out of the storage pays every debt on it. This crate holds the instruments with which such
a protocol is audited, and the protocol itself as a state machine that the instruments drive.

- `src/litmus.rs`: probes. Ten counters record which branch an operation took; six one-shot
  checkpoints park the first thread that arrives. Every wait is bounded and fails with a message
  that shows all counters.
- `src/strategy/test_ctl.rs`: a seam that parks exactly one reader of an exact storage in an exact
  window of the fallback load. A seam and its storages belong to one domain.
- `src/strategy/test_hooks.rs`: one callback for the audited linearization points.
- `src/debt/`: the books of a reclamation domain (`books.rs`), the steps of a load (`steps.rs`), the
  writers (`writes.rs`), whole operations (`flow.rs`) and the executable domain (`domain.rs`).
  `balance.rs` and `tally.rs` show why the counts stay right.
- `src/laws/`: the properties of the instruments over every sequence of operations, of the seam under
  every interleaving of its single memory accesses, and of the debt protocol: what a guard protects
  is never dropped, and everything is dropped exactly once.
- `app/`: the instruments as process-wide state on which real threads wait.

All of `src/` is verified with Verus, without trusted items.
