# ethera

Reservations of cross-chain transactions (XTs) for a block builder, and the
decisions of the callbacks that tie the builder to its sidecar.

The sidecar submits, releases and aborts XT instances. The builder keeps the
nonces of their transactions reserved, holds unrelated mempool transactions back
while an instance is in flight, executes released instances in order
(`putInbox` transactions first), and confirms the included ones to the sidecar.

## Layout

- `src/`: the library, verified with Verus
  - `ethera/model.rs`: what the pool is and what each operation makes of it
  - `ethera/pool.rs`, `reservation.rs`, `index.rs`, `execution.rs`: the pool
  - `ethera/gate.rs`, `canonical_tracker.rs`: what a candidate block executed and
    what a canonical block confirms
  - `ethera/rpc.rs`: what the RPC methods decide
  - `ethera/laws.rs`, `ethera/execution_laws.rs`, `sidecar/laws.rs`: what holds of
    several operations together
  - `sidecar/client.rs`: what is sent to the sidecar, and when
  - `sidecar/state.rs`, `overrides.rs`: state overrides for simulations
  - `outside.rs`: the calls into other crates, and what is relied on of each
- `tests/`: the library in use
- `app/`: locks, RPC registration, HTTP and the conversion of executor state

A batch of confirmations that still fails after all retries stays queued and
goes out in front of the next one. When the queue closes, it has one last round.
