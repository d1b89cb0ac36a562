//! Merkle tries of key/value pairs with inclusion proofs, the checks a client
//! makes on the proofs a node sends it, the answers a node gives to its state
//! RPCs, and the peer bookkeeping and decisions of a chain synchroniser.
pub mod bytesrepr;
pub mod hash;
pub mod trie;
pub mod merkle_proof;
pub mod store;
pub mod operations;
pub mod well_formed;
pub mod other_keys;
pub mod peers;
pub mod hex;
pub mod balance;
pub mod rpc;
pub mod linear_chain_fast_sync;
pub mod keys;
pub mod linear_chain_sync;
pub mod three_stage_test_reactor;
pub mod json_compatibility;
pub mod handle_payment;
