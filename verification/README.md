# ipcs

A peer-to-peer system for distributed computations: WebAssembly functions and
their inputs are stored as content-addressed blocks, and nodes hand the work of
running a function to the peers closest to the work's identifier.

## Layout

- `src/` — the library, verified with Verus:
  - `encoding.rs`: work and block identifiers (SHA2-256, Base58, CIDv1), Hamming distance.
  - `message.rs`, `peer_stats.rs`: the messages of the work-exchange protocol and the
    per-peer outboxes that batch them.
  - `workswap.rs`: the protocol state machine (peers, work units, events), peer selection
    by distance, and what each incoming message and poll does.
  - `node.rs`: the node around the protocol: its own requests (always handed to peers,
    never run where they were received), the computations peers asked it to run,
    lookups and stored blocks.
  - `executor.rs`: the host side of the function interface (argument reads, result writes).
  - `block.rs`, `api.rs`: blocks, and the HTTP request and reply bodies.
  - `protocol_laws.rs`: properties that span several operations, proved.
- `tests/` — tests of the library on concrete values.
- `app/` — the program around it: command line, HTTP server and client, WebAssembly
  embedding, network plumbing and wire encoding.

The network plumbing in `app/net.rs` is written against `libp2p` 0.22 and `bitswap`,
which `Cargo.toml` does not list: that file does not build without them, while the
library and the rest of `app/` do.
