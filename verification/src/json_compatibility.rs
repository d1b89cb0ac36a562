//! The form in which a node shows a Merkle proof in its JSON responses.
use std::collections::VecDeque;
use vstd::prelude::*;

use crate::bytesrepr::{max_repr_len, Error, FromBytes, ToBytes};
use crate::hex::spec_hex_encode;
use crate::merkle_proof::{self, TrieMerkleProofStep};
use crate::rpc::to_hex_repr;

verus! {

/// A Merkle proof as a node shows it: the key as formatted text, the value
/// in its JSON form, and the proof steps as the hexadecimal text of their
/// representation.
#[derive(Debug)]
pub struct TrieMerkleProof<S> {
    key: String,
    value: S,
    proof_steps: String,
}

impl<S> View for TrieMerkleProof<S> {
    /// The key's text, the value, and the steps' text.
    type V = (Seq<char>, S, Seq<char>);

    closed spec fn view(&self) -> (Seq<char>, S, Seq<char>) {
        (self.key@, self.value, self.proof_steps@)
    }
}

impl<S> TrieMerkleProof<S> {
    /// The proof `proof` shown with its key as `key` and its value as
    /// `value`; an error where its steps' representation is longer than
    /// `u32::MAX` bytes.
    pub fn try_from<K: FromBytes, V: FromBytes>(
        key: String,
        value: S,
        proof: &merkle_proof::TrieMerkleProof<K, V>,
    ) -> (r: Result<Self, Error>)
        ensures
            ({
                let steps = VecDeque::<TrieMerkleProofStep>::spec_bytes(
                    proof.deep_view().proof_steps,
                );
                &&& r is Ok <==> steps.len() <= max_repr_len()
                &&& r matches Ok(p) ==> p@ == (key@, value, spec_hex_encode(steps))
                &&& r matches Err(e) ==> e == Error::OutOfMemory
            }),
    {
        let proof_steps = match to_hex_repr(proof.proof_steps()) {
            Ok(text) => text,
            Err(e) => return Err(e),
        };
        Ok(TrieMerkleProof { key, value, proof_steps })
    }

    /// The key, as formatted text.
    pub fn key(&self) -> (r: &String)
        ensures
            r@ == self@.0,
    {
        &self.key
    }

    /// The value.
    pub fn value(&self) -> (r: &S)
        ensures
            *r == self@.1,
    {
        &self.value
    }

    /// The proof steps, as hexadecimal text.
    pub fn proof_steps(&self) -> (r: &String)
        ensures
            r@ == self@.2,
    {
        &self.proof_steps
    }
}

} // verus!
