# kademlia

A Kademlia distributed hash table: 160-bit keys, XOR distances, k-bucket
routing tables, a per-node value store, and iterative node and value lookups.

- `src/` is the library, verified with Verus: keys and distances (`key`),
  ordering by distance (`closeness`), the routing tables (`routing`, `rout2`),
  request handling, reply bookkeeping and the lookup state machine
  (`kademlia`), the state and request processing of the TCP node (`state2`,
  `kad2`), and the frame splitting of the codecs (`proto2`, `req2`).
  SHA-1 (rust-crypto) and random bytes (rand) are called through small
  wrappers whose contracts are stated in `key`.
- `app/` holds what talks to the outside: the UDP and TCP nodes, threads and
  tokio tasks, the serde forms of the messages and the tokio codecs.
- `tests/` runs the library on concrete values.
