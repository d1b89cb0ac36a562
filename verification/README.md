# casper_state

Merkle tries of key/value pairs with inclusion proofs, a client's check of
the proofs a node sends, the answers a node gives to its state RPCs, and the
decisions of a joining node's linear chain synchroniser, written in Verus
with their contracts proved.

Layout:

- `src/bytesrepr.rs`, `src/hash.rs`, `src/hex.rs`: byte representations,
  Blake2b digests, hexadecimal text.
- `src/trie.rs`, `src/store.rs`: trie elements and a store of them by hash.
- `src/merkle_proof.rs`: proofs and the root hash they lead to.
- `src/operations.rs`, `src/well_formed.rs`, `src/other_keys.rs`,
  `src/keys.rs`: reading with and without proofs, writing, walking the
  keys; what a write keeps (a well-formed store, the entries of other keys).
- `src/rpc.rs`, `src/balance.rs`, `src/json_compatibility.rs`,
  `src/handle_payment.rs`: RPC parameters, answers and proof checks.
- `src/peers.rs`, `src/linear_chain_fast_sync.rs`, `src/linear_chain_sync.rs`,
  `src/three_stage_test_reactor.rs`: the synchroniser as a state machine.
- `app/`: HTTP calls, JSON forms, and the runtime that performs the
  synchroniser's effects.
- `tests/`: tests on concrete values.
