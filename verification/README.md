# floresta_wire

The peer-to-peer bookkeeping of a Utreexo Bitcoin node, verified with Verus:
which peers the node holds and how far their handshakes got, which requests it
waits on and from whom, which downloaded blocks wait for their proofs, and what
it does when a peer misbehaves, leaves or does not answer in time.

The node does not do I/O itself. Everything outside its bookkeeping (the
address database, the block chain, the connection tasks and their channels,
the clocks and the statistics of response times) is reached through the
`NodeHost` trait. A host keeps a log of the calls made to it, and the contract
of each of its methods says that a call appends one event to that log, with the
call's arguments and what it returned. The node's contracts are stated over
that log: which calls the node made, in which order and with which arguments,
what it did with each possible answer, and what its state became.

## Layout

- `src/vec_map.rs`: an insertion-ordered map with unique keys, viewed as a `Map`.
- `src/types.rs`: the plain values the node works on (hashes, addresses,
  service flags, blocks, Utreexo proofs and leaf data, requests, messages,
  errors).
- `src/external.rs`: the calls into rand and rust-bitcoin's hashes.
- `src/host.rs`: the `NodeHost` trait, and the events of its log.
- `src/node.rs`: the node's state, its mathematical view and its invariant.
- `src/peer_man.rs`: sending to peers, handshakes, ban scores, hand-added peers.
- `src/conn.rs`: opening connections and finding addresses.
- `src/blocks.rs`: downloading blocks, keeping each with its Utreexo proof and
  leaf data once they arrive, and handing them to the chain in order.
- `src/inflight.rs`: asking again when a peer leaves or a request times out.
- `src/address.rs`: reading `<address>[:<port>]` as given to `--connect`, and
  reading back what `Display` writes.
- `src/laws.rs`: properties that relate the operations to one another.
- `tests/`: tests of the library against a recording host.
- `app/`: what runs around the library: moving averages and the choice of
  peers by response time (floating point), the metrics endpoint, the Electrum
  server's error type, name resolution, and conversions from rust-bitcoin's
  types.
