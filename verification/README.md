# mco_rpc

A small RPC library whose decision logic is verified with Verus.

- `src/balance.rs` — the client pool and its four picking rules (round-robin,
  random, address hash, fewest live handles), with the laws of `put`/`remove`,
  of round-robin turns and of the hash pairing. Client types written outside
  Verus join a pool as `Dialed<T>`, which keeps the address beside the client.
- `src/text.rs` — byte-level text comparison and decimal formatting.
- `src/stub.rs` — request identifiers and the reply the server owes for each
  request it reads.
- `src/manager.rs`, `src/codec.rs` — configuration, address sources and codec markers.
- `app/` — the networked parts: serde codecs, TCP clients, the handler
  registry and the pool managers, which call into the verified library.
