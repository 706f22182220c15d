# pm

A small game kernel with replication, verified with Verus.

* `src/` is the library: entity ids and pools, the task kernel and its pacing,
  snapshots and their convergence, prediction and smoothing, the session
  handshake, a broadphase tree, cameras, and the helpers around them. Every
  function states what it returns or changes, and the laws of the library
  (what an ack confirms, what a snapshot carries, who is admitted, what a query
  finds) are proof functions beside the code they speak of.
* `src/link.rs` is the only module that talks to the QUIC state machine. Its
  private wrappers around `quinn_proto` are believed, not proved; each says
  what it claims. `src/schema.rs` has one more, around a `std` conversion.
* `app/` is the runtime around the library: closures, clocks, sockets, files,
  dynamic libraries and floating point.
* `tests/` run the library, the QUIC tests on a wire and a clock of their own.

Floats cross into the library as bit patterns. Comparisons on them are decided
and proved in `src/order.rs`; arithmetic on them is passed in by the caller.
