# routing

The routing layer of a peer-to-peer network node, written in Verus: the name space and its XOR
distance, the routing table of a node, the bookkeeping of the peers it connects to, mutable data
with owners and per-user permissions, signed direct messages, the merging of close group reports,
the retry bookkeeping of messages sent to several targets, and a simulated network for tests.

## Layout

- `src/` is the verified library. Every function there carries a contract that Verus proves;
  the calls into `sodiumoxide`, `tiny-keccak`, `kademlia_routing_table`, `rand` and the clock go
  through small trusted wrappers whose contracts say only what those crates document.
  - `name_type`, `routing_table`: names, closeness to a target, and the routing table with its
    buckets, close group and message targets.
  - `peer_manager`: the states of known peers, the exchange of connection info, proxies and
    clients, with the Kademlia table of `kademlia_routing_table`.
  - `data`: mutable data: entries, permissions, owners and the size limits.
  - `direct_messages`, `crypto`, `public_id`: identities, keys and signed messages.
  - `id`: identities named by the SHA3-256 digest of their signing key, with their secret keys.
  - `relay`, `peer`: the peers we relay for or bootstrapped off, kept by label and by endpoint.
  - `routing_core`, `routing_node`: our identity, routing table and relay map together; adding
    and dropping peers with the events that follow (connected, bootstrapped, churn), and the
    handling of a peer's hello on a new connection.
  - `rate_limiter`: the per-client byte allowance of a proxy and its leak.
  - `find_group_response`: merging the close groups that several nodes report.
  - `sending_targets_cache`: which target of a message to try next.
  - `mock_network`: the packet queues and connection lists of a simulated network.
  - `assoc_map`: small maps with distinct keys, used by the modules above.
- `tests/` runs the library on concrete values.
- `app/` holds what the library leaves to its users: shared handles and channels of the simulated
  network, conversions from `std` types, the search for an identity named within an interval,
  the rate limiter's clock, and serde copies of payloads.
