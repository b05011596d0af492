# network-gateway

The verified core of a proving gateway: a per-proof-type concurrency gate, the
rules by which it follows the cluster's list of pending proofs, its metrics, the
settings it accepts, and the plumbing of artifacts (chunks, nodes, memory
backpressure, compression, HTTP answers).

- `src/` is the library. Every operation of the admission controller is stated
  over its whole state (`gate.rs`) and proved in `admission.rs`; what holds
  across operations stands in `laws.rs`, and what holds after any run of them in
  `runs.rs`. Each operation that reads the clock has a twin that takes the time
  (`..._at`).
- `tests/` runs the library on concrete values.
- `app/` is the program around it: command line, HTTP, Redis, background tasks.

Calls into other crates stand behind small trusted functions: `slots.rs` and
`demand.rs` (dashmap), `exposition.rs` (prometheus-client), `hexadecimal.rs`
(hex), `codec.rs` (zstd), `pending.rs` (eyre, tonic), `setup.rs`
(alloy-primitives), `time.rs` (the standard library's clock).
