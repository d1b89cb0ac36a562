//! Balance queries of purses in global state.
use vstd::prelude::*;

use crate::hash::Blake2bHash;
use crate::merkle_proof::TrieMerkleProof;

verus! {

/// A 512-bit unsigned integer, as eight 64-bit limbs, least significant first.
#[derive(Debug, Clone, Copy)]
pub struct U512(pub [u64; 8]);

/// An unforgeable reference to a value in global state: its address and the
/// access rights it grants.
#[derive(Debug, Clone, Copy)]
pub struct URef {
    pub addr: [u8; 32],
    pub access_rights: u8,
}

/// The outcome of a balance query.
#[derive(Debug)]
pub enum BalanceResult<K, V> {
    RootNotFound,
    Success {
        motes: U512,
        main_purse_proof: Box<TrieMerkleProof<K, V>>,
        balance_proof: Box<TrieMerkleProof<K, V>>,
    },
}

/// A request for the balance of a purse under a state root.
#[derive(Debug, Clone, Copy)]
pub struct BalanceRequest {
    state_hash: Blake2bHash,
    purse_uref: URef,
}

impl View for BalanceRequest {
    type V = (Seq<u8>, URef);

    closed spec fn view(&self) -> (Seq<u8>, URef) {
        (self.state_hash@, self.purse_uref)
    }
}

impl BalanceRequest {
    /// The request for the balance of `purse_uref` under `state_hash`.
    pub fn new(state_hash: Blake2bHash, purse_uref: URef) -> (r: Self)
        ensures
            r@ == (state_hash@, purse_uref),
    {
        BalanceRequest { state_hash, purse_uref }
    }

    /// The state root the balance is asked under.
    pub fn state_hash(&self) -> (r: Blake2bHash)
        ensures
            r@ == self@.0,
    {
        self.state_hash
    }

    /// The purse whose balance is asked for.
    pub fn purse_uref(&self) -> (r: URef)
        ensures
            r == self@.1,
    {
        self.purse_uref
    }
}

} // verus!
