# ppose

PPoSE (Peer-to-Peer Obfuscated Stateless Exchange) as a Verus library: the
wire formats, the reliability state machine, onion layering, the relay and
rendezvous services, invitation-based admission and the session state
machine, each with contracts that Verus proves.

Layout:

- `src/` — the verified library.
  - `network/` — outer header, relay forward body, socket addresses, replay cache.
  - `reliability/` — DATA/ACK frames and the selective-repeat ARQ.
  - `crypto/` — BLAKE3, X25519 keys, XChaCha20-Poly1305 and the Noise XX
    session, each outside call behind a small trusted wrapper.
  - `onion.rs`, `relay.rs`, `rendezvous.rs` — the three kinds of node, as
    state machines from datagram to reply.
  - `admission.rs` — Ed25519-signed invitations and the trust store.
  - `session.rs` — a peer session: handshake, fragmentation, sealing, ACKs
    and cover traffic, free of sockets and clocks.
  - `cli.rs` — argument and hex helpers for the command-line tool.
- `tests/` — scenario tests run against the compiled library.
- `app/` — the `ppose` binary: sockets, time, console, and error types with
  `Display`.

Times in the library are milliseconds handed in by the caller; the app reads
the clock.
