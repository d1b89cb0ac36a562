//! Proofs that a key/value pair is present in a Merkle trie: the steps from
//! the leaf up to the root, their byte representation, and the recomputation
//! of the root hash from them.
use std::collections::VecDeque;
use vstd::prelude::*;

use crate::bytesrepr::{max_repr_len, Error, FromBytes, ToBytes};
use crate::hash::{blake2b_digest, hash_pair, spec_hash_pair, Blake2bHash};
use crate::trie::{block_from, Pointer, PointerBlock, PointerModel, TrieModel};

verus! {

/// The tag byte of each kind of proof step.
pub const TRIE_MERKLE_PROOF_STEP_NODE_ID: u8 = 0;
pub const TRIE_MERKLE_PROOF_STEP_EXTENSION_ID: u8 = 1;
pub const TRIE_MERKLE_PROOF_ROSE_LEAF_ROSE_ID: u8 = 2;
pub const TRIE_MERKLE_PROOF_ROSE_LEAF_LEAF_ID: u8 = 3;
pub const TRIE_MERKLE_PROOF_ROSE_EXTENSION_ROSE_ID: u8 = 4;
pub const TRIE_MERKLE_PROOF_ROSE_EXTENSION_EXTENSION_ID: u8 = 5;
pub const TRIE_MERKLE_PROOF_ROSE_NODE_ROSE_ID: u8 = 6;
pub const TRIE_MERKLE_PROOF_ROSE_NODE_NODE_ID: u8 = 7;

/// The model of a [`TrieMerkleProofStep`].
pub enum StepModel {
    Node { hole_index: u8, indexed_pointers_with_hole: Seq<(u8, PointerModel)> },
    Extension { affix: Seq<u8> },
    RoseLeafRose { leaf_hash: Seq<u8> },
    RoseLeafLeaf { rose_hash: Seq<u8> },
    RoseExtensionRose { extension_hash: Seq<u8> },
    RoseExtensionExtension { rose_hash: Seq<u8>, affix: Seq<u8> },
    RoseNodeRose { node_hash: Seq<u8> },
    RoseNodeNode {
        rose_hash: Seq<u8>,
        hole_index: u8,
        indexed_pointers_with_hole: Seq<(u8, PointerModel)>,
    },
}

/// One step of a proof that an entry is in the trie: what, besides the hash
/// of the level below, is needed to compute the hash of the level above.
///
/// Every "rose" step comes in two kinds: one for the rose itself and one for
/// the plain element it stands beside.
#[derive(Debug, Clone, PartialEq, Eq)]
pub enum TrieMerkleProofStep {
    /// Corresponds to a node: its other children, and the slot of the one below.
    Node { hole_index: u8, indexed_pointers_with_hole: Vec<(u8, Pointer)> },
    /// Corresponds to an extension.
    Extension { affix: Vec<u8> },
    /// Corresponds to the rose beside a leaf.
    RoseLeafRose { leaf_hash: Blake2bHash },
    /// Corresponds to the leaf beside a rose.
    RoseLeafLeaf { rose_hash: Blake2bHash },
    /// Corresponds to the rose beside an extension.
    RoseExtensionRose { extension_hash: Blake2bHash },
    /// Corresponds to the extension beside a rose.
    RoseExtensionExtension { rose_hash: Blake2bHash, affix: Vec<u8> },
    /// Corresponds to the rose beside a node.
    RoseNodeRose { node_hash: Blake2bHash },
    /// Corresponds to the node beside a rose.
    RoseNodeNode {
        rose_hash: Blake2bHash,
        hole_index: u8,
        indexed_pointers_with_hole: Vec<(u8, Pointer)>,
    },
}

impl DeepView for TrieMerkleProofStep {
    type V = StepModel;

    open spec fn deep_view(&self) -> StepModel {
        match self {
            TrieMerkleProofStep::Node { hole_index, indexed_pointers_with_hole } => StepModel::Node {
                hole_index: *hole_index,
                indexed_pointers_with_hole: indexed_pointers_with_hole.deep_view(),
            },
            TrieMerkleProofStep::Extension { affix } => StepModel::Extension { affix: affix@ },
            TrieMerkleProofStep::RoseLeafRose { leaf_hash } => StepModel::RoseLeafRose {
                leaf_hash: leaf_hash@,
            },
            TrieMerkleProofStep::RoseLeafLeaf { rose_hash } => StepModel::RoseLeafLeaf {
                rose_hash: rose_hash@,
            },
            TrieMerkleProofStep::RoseExtensionRose { extension_hash } =>
                StepModel::RoseExtensionRose { extension_hash: extension_hash@ },
            TrieMerkleProofStep::RoseExtensionExtension { rose_hash, affix } =>
                StepModel::RoseExtensionExtension { rose_hash: rose_hash@, affix: affix@ },
            TrieMerkleProofStep::RoseNodeRose { node_hash } => StepModel::RoseNodeRose {
                node_hash: node_hash@,
            },
            TrieMerkleProofStep::RoseNodeNode {
                rose_hash,
                hole_index,
                indexed_pointers_with_hole,
            } => StepModel::RoseNodeNode {
                rose_hash: rose_hash@,
                hole_index: *hole_index,
                indexed_pointers_with_hole: indexed_pointers_with_hole.deep_view(),
            },
        }
    }
}

impl TrieMerkleProofStep {
    /// A step for a node.
    pub fn node(hole_index: u8, indexed_pointers_with_hole: Vec<(u8, Pointer)>) -> (s: Self)
        ensures
            s.deep_view() == (StepModel::Node {
                hole_index,
                indexed_pointers_with_hole: indexed_pointers_with_hole.deep_view(),
            }),
    {
        TrieMerkleProofStep::Node { hole_index, indexed_pointers_with_hole }
    }

    /// A step for an extension.
    pub fn extension(affix: Vec<u8>) -> (s: Self)
        ensures
            s.deep_view() == (StepModel::Extension { affix: affix@ }),
    {
        TrieMerkleProofStep::Extension { affix }
    }
}

type NodeParts = (u8, Vec<(u8, Pointer)>);

/// The representation of a proof step: a tag byte, then its fields in order.
pub open spec fn step_bytes(s: StepModel) -> Seq<u8> {
    match s {
        StepModel::Node { hole_index, indexed_pointers_with_hole } => seq![0u8] + NodeParts::spec_bytes(
            (hole_index, indexed_pointers_with_hole),
        ),
        StepModel::Extension { affix } => seq![1u8] + Vec::<u8>::spec_bytes(affix),
        StepModel::RoseLeafRose { leaf_hash } => seq![2u8] + leaf_hash,
        StepModel::RoseLeafLeaf { rose_hash } => seq![3u8] + rose_hash,
        StepModel::RoseExtensionRose { extension_hash } => seq![4u8] + extension_hash,
        StepModel::RoseExtensionExtension { rose_hash, affix } => seq![5u8] + <(
            Blake2bHash,
            Vec<u8>,
        )>::spec_bytes((rose_hash, affix)),
        StepModel::RoseNodeRose { node_hash } => seq![6u8] + node_hash,
        StepModel::RoseNodeNode { rose_hash, hole_index, indexed_pointers_with_hole } => seq![7u8]
            + <(Blake2bHash, NodeParts)>::spec_bytes(
            (rose_hash, (hole_index, indexed_pointers_with_hole)),
        ),
    }
}

impl ToBytes for TrieMerkleProofStep {
    open spec fn spec_valid(s: StepModel) -> bool {
        match s {
            StepModel::Node { hole_index, indexed_pointers_with_hole } => NodeParts::spec_valid(
                (hole_index, indexed_pointers_with_hole),
            ),
            StepModel::Extension { affix } => true,
            StepModel::RoseLeafRose { leaf_hash } => leaf_hash.len() == 32,
            StepModel::RoseLeafLeaf { rose_hash } => rose_hash.len() == 32,
            StepModel::RoseExtensionRose { extension_hash } => extension_hash.len() == 32,
            StepModel::RoseExtensionExtension { rose_hash, affix } => rose_hash.len() == 32,
            StepModel::RoseNodeRose { node_hash } => node_hash.len() == 32,
            StepModel::RoseNodeNode { rose_hash, hole_index, indexed_pointers_with_hole } => <(
                Blake2bHash,
                NodeParts,
            )>::spec_valid((rose_hash, (hole_index, indexed_pointers_with_hole))),
        }
    }

    open spec fn spec_bytes(s: StepModel) -> Seq<u8> {
        step_bytes(s)
    }

    proof fn lemma_valid(&self) {
        match self {
            TrieMerkleProofStep::Node { hole_index, indexed_pointers_with_hole } => {
                indexed_pointers_with_hole.lemma_valid();
            },
            TrieMerkleProofStep::RoseNodeNode { indexed_pointers_with_hole, .. } => {
                indexed_pointers_with_hole.lemma_valid();
            },
            _ => {
            },
        }
    }

    proof fn lemma_nonempty(s: StepModel) {
    }

    fn write_bytes(&self, buf: &mut Vec<u8>) {
        let ghost start = buf@;
        match self {
            TrieMerkleProofStep::Node { hole_index, indexed_pointers_with_hole } => {
                buf.push(TRIE_MERKLE_PROOF_STEP_NODE_ID);
                hole_index.write_bytes(buf);
                indexed_pointers_with_hole.write_bytes(buf);
            },
            TrieMerkleProofStep::Extension { affix } => {
                buf.push(TRIE_MERKLE_PROOF_STEP_EXTENSION_ID);
                affix.write_bytes(buf);
                assert(affix.deep_view() =~= affix@);
            },
            TrieMerkleProofStep::RoseLeafRose { leaf_hash } => {
                buf.push(TRIE_MERKLE_PROOF_ROSE_LEAF_ROSE_ID);
                leaf_hash.write_bytes(buf);
            },
            TrieMerkleProofStep::RoseLeafLeaf { rose_hash } => {
                buf.push(TRIE_MERKLE_PROOF_ROSE_LEAF_LEAF_ID);
                rose_hash.write_bytes(buf);
            },
            TrieMerkleProofStep::RoseExtensionRose { extension_hash } => {
                buf.push(TRIE_MERKLE_PROOF_ROSE_EXTENSION_ROSE_ID);
                extension_hash.write_bytes(buf);
            },
            TrieMerkleProofStep::RoseExtensionExtension { rose_hash, affix } => {
                buf.push(TRIE_MERKLE_PROOF_ROSE_EXTENSION_EXTENSION_ID);
                rose_hash.write_bytes(buf);
                affix.write_bytes(buf);
                assert(affix.deep_view() =~= affix@);
            },
            TrieMerkleProofStep::RoseNodeRose { node_hash } => {
                buf.push(TRIE_MERKLE_PROOF_ROSE_NODE_ROSE_ID);
                node_hash.write_bytes(buf);
            },
            TrieMerkleProofStep::RoseNodeNode {
                rose_hash,
                hole_index,
                indexed_pointers_with_hole,
            } => {
                buf.push(TRIE_MERKLE_PROOF_ROSE_NODE_NODE_ID);
                rose_hash.write_bytes(buf);
                hole_index.write_bytes(buf);
                indexed_pointers_with_hole.write_bytes(buf);
            },
        }
        assert(buf@ =~= start + step_bytes(self.deep_view()));
    }

    fn serialized_length(&self) -> (n: usize) {
        match self {
            TrieMerkleProofStep::Node { hole_index, indexed_pointers_with_hole } => 1
                + hole_index.serialized_length() + indexed_pointers_with_hole.serialized_length(),
            TrieMerkleProofStep::Extension { affix } => {
                assert(affix.deep_view() =~= affix@);
                1 + affix.serialized_length()
            },
            TrieMerkleProofStep::RoseLeafRose { leaf_hash } => 1 + leaf_hash.serialized_length(),
            TrieMerkleProofStep::RoseLeafLeaf { rose_hash } => 1 + rose_hash.serialized_length(),
            TrieMerkleProofStep::RoseExtensionRose { extension_hash } => 1
                + extension_hash.serialized_length(),
            TrieMerkleProofStep::RoseExtensionExtension { rose_hash, affix } => {
                assert(affix.deep_view() =~= affix@);
                1 + rose_hash.serialized_length() + affix.serialized_length()
            },
            TrieMerkleProofStep::RoseNodeRose { node_hash } => 1 + node_hash.serialized_length(),
            TrieMerkleProofStep::RoseNodeNode {
                rose_hash,
                hole_index,
                indexed_pointers_with_hole,
            } => 1 + rose_hash.serialized_length() + hole_index.serialized_length()
                + indexed_pointers_with_hole.serialized_length(),
        }
    }
}


impl FromBytes for TrieMerkleProofStep {
    open spec fn spec_parse(bytes: Seq<u8>) -> Result<(StepModel, nat), Error> {
        if bytes.len() < 1 {
            Err(Error::EarlyEndOfStream)
        } else {
            let tag = bytes[0];
            let rest = bytes.skip(1);
            if tag == 0 {
                match NodeParts::spec_parse(rest) {
                    Ok((p, k)) => Ok(
                        (
                            StepModel::Node { hole_index: p.0, indexed_pointers_with_hole: p.1 },
                            1 + k,
                        ),
                    ),
                    Err(e) => Err(e),
                }
            } else if tag == 1 {
                match Vec::<u8>::spec_parse(rest) {
                    Ok((a, k)) => Ok((StepModel::Extension { affix: a }, 1 + k)),
                    Err(e) => Err(e),
                }
            } else if 2 <= tag <= 4 || tag == 6 {
                match Blake2bHash::spec_parse(rest) {
                    Ok((h, k)) => Ok(
                        (
                            if tag == 2 {
                                StepModel::RoseLeafRose { leaf_hash: h }
                            } else if tag == 3 {
                                StepModel::RoseLeafLeaf { rose_hash: h }
                            } else if tag == 4 {
                                StepModel::RoseExtensionRose { extension_hash: h }
                            } else {
                                StepModel::RoseNodeRose { node_hash: h }
                            },
                            1 + k,
                        ),
                    ),
                    Err(e) => Err(e),
                }
            } else if tag == 5 {
                match <(Blake2bHash, Vec<u8>)>::spec_parse(rest) {
                    Ok((p, k)) => Ok(
                        (StepModel::RoseExtensionExtension { rose_hash: p.0, affix: p.1 }, 1 + k),
                    ),
                    Err(e) => Err(e),
                }
            } else if tag == 7 {
                match <(Blake2bHash, NodeParts)>::spec_parse(rest) {
                    Ok((p, k)) => Ok(
                        (
                            StepModel::RoseNodeNode {
                                rose_hash: p.0,
                                hole_index: p.1.0,
                                indexed_pointers_with_hole: p.1.1,
                            },
                            1 + k,
                        ),
                    ),
                    Err(e) => Err(e),
                }
            } else {
                Err(Error::Formatting)
            }
        }
    }

    proof fn lemma_parse_bound(bytes: Seq<u8>) {
        if bytes.len() >= 1 {
            let rest = bytes.skip(1);
            NodeParts::lemma_parse_bound(rest);
            Vec::<u8>::lemma_parse_bound(rest);
            Blake2bHash::lemma_parse_bound(rest);
            <(Blake2bHash, Vec<u8>)>::lemma_parse_bound(rest);
            <(Blake2bHash, NodeParts)>::lemma_parse_bound(rest);
        }
    }

    proof fn lemma_roundtrip(s: StepModel, rest: Seq<u8>) {
        let all = step_bytes(s) + rest;
        match s {
            StepModel::Node { hole_index, indexed_pointers_with_hole } => {
                let f = (hole_index, indexed_pointers_with_hole);
                assert(all.skip(1) =~= NodeParts::spec_bytes(f) + rest);
                assert(all[0] == 0u8);
                NodeParts::lemma_roundtrip(f, rest);
            },
            StepModel::Extension { affix } => {
                assert(all.skip(1) =~= Vec::<u8>::spec_bytes(affix) + rest);
                assert(all[0] == 1u8);
                Vec::<u8>::lemma_roundtrip(affix, rest);
            },
            StepModel::RoseLeafRose { leaf_hash } => {
                assert(all.skip(1) =~= leaf_hash + rest);
                assert(all[0] == 2u8);
                Blake2bHash::lemma_roundtrip(leaf_hash, rest);
            },
            StepModel::RoseLeafLeaf { rose_hash } => {
                assert(all.skip(1) =~= rose_hash + rest);
                assert(all[0] == 3u8);
                Blake2bHash::lemma_roundtrip(rose_hash, rest);
            },
            StepModel::RoseExtensionRose { extension_hash } => {
                assert(all.skip(1) =~= extension_hash + rest);
                assert(all[0] == 4u8);
                Blake2bHash::lemma_roundtrip(extension_hash, rest);
            },
            StepModel::RoseExtensionExtension { rose_hash, affix } => {
                let f = (rose_hash, affix);
                assert(all.skip(1) =~= <(Blake2bHash, Vec<u8>)>::spec_bytes(f) + rest);
                assert(all[0] == 5u8);
                <(Blake2bHash, Vec<u8>)>::lemma_roundtrip(f, rest);
            },
            StepModel::RoseNodeRose { node_hash } => {
                assert(all.skip(1) =~= node_hash + rest);
                assert(all[0] == 6u8);
                Blake2bHash::lemma_roundtrip(node_hash, rest);
            },
            StepModel::RoseNodeNode { rose_hash, hole_index, indexed_pointers_with_hole } => {
                let f = (rose_hash, (hole_index, indexed_pointers_with_hole));
                assert(all.skip(1) =~= <(Blake2bHash, NodeParts)>::spec_bytes(f) + rest);
                assert(all[0] == 7u8);
                <(Blake2bHash, NodeParts)>::lemma_roundtrip(f, rest);
            },
        }
    }

    fn from_bytes(bytes: &[u8]) -> (r: Result<(TrieMerkleProofStep, &[u8]), Error>) {
        if bytes.len() < 1 {
            return Err(Error::EarlyEndOfStream);
        }
        let tag = bytes[0];
        let rest = &bytes[1..bytes.len()];
        assert(rest@ =~= bytes@.skip(1));
        let (step, rem) = if tag == TRIE_MERKLE_PROOF_STEP_NODE_ID {
            match NodeParts::from_bytes(rest) {
                Ok(((hole_index, indexed_pointers_with_hole), rem)) => (
                    TrieMerkleProofStep::Node { hole_index, indexed_pointers_with_hole },
                    rem,
                ),
                Err(e) => return Err(e),
            }
        } else if tag == TRIE_MERKLE_PROOF_STEP_EXTENSION_ID {
            match Vec::<u8>::from_bytes(rest) {
                Ok((affix, rem)) => {
                    assert(affix.deep_view() =~= affix@);
                    (TrieMerkleProofStep::Extension { affix }, rem)
                },
                Err(e) => return Err(e),
            }
        } else if tag == TRIE_MERKLE_PROOF_ROSE_LEAF_ROSE_ID || tag
            == TRIE_MERKLE_PROOF_ROSE_LEAF_LEAF_ID || tag == TRIE_MERKLE_PROOF_ROSE_EXTENSION_ROSE_ID
            || tag == TRIE_MERKLE_PROOF_ROSE_NODE_ROSE_ID {
            match Blake2bHash::from_bytes(rest) {
                Ok((h, rem)) => (
                    if tag == TRIE_MERKLE_PROOF_ROSE_LEAF_ROSE_ID {
                        TrieMerkleProofStep::RoseLeafRose { leaf_hash: h }
                    } else if tag == TRIE_MERKLE_PROOF_ROSE_LEAF_LEAF_ID {
                        TrieMerkleProofStep::RoseLeafLeaf { rose_hash: h }
                    } else if tag == TRIE_MERKLE_PROOF_ROSE_EXTENSION_ROSE_ID {
                        TrieMerkleProofStep::RoseExtensionRose { extension_hash: h }
                    } else {
                        TrieMerkleProofStep::RoseNodeRose { node_hash: h }
                    },
                    rem,
                ),
                Err(e) => return Err(e),
            }
        } else if tag == TRIE_MERKLE_PROOF_ROSE_EXTENSION_EXTENSION_ID {
            match <(Blake2bHash, Vec<u8>)>::from_bytes(rest) {
                Ok(((rose_hash, affix), rem)) => {
                    assert(affix.deep_view() =~= affix@);
                    (TrieMerkleProofStep::RoseExtensionExtension { rose_hash, affix }, rem)
                },
                Err(e) => return Err(e),
            }
        } else if tag == TRIE_MERKLE_PROOF_ROSE_NODE_NODE_ID {
            match <(Blake2bHash, NodeParts)>::from_bytes(rest) {
                Ok(((rose_hash, (hole_index, indexed_pointers_with_hole)), rem)) => (
                    TrieMerkleProofStep::RoseNodeNode {
                        rose_hash,
                        hole_index,
                        indexed_pointers_with_hole,
                    },
                    rem,
                ),
                Err(e) => return Err(e),
            }
        } else {
            return Err(Error::Formatting);
        };
        assert(rem@ =~= bytes@.skip(bytes@.len() - rem@.len()));
        Ok((step, rem))
    }
}


/// The hash of a representation, unless it is longer than `u32::MAX` bytes.
pub open spec fn repr_hash(bytes: Seq<u8>) -> Result<Seq<u8>, Error> {
    if bytes.len() <= max_repr_len() {
        Ok(blake2b_digest(bytes))
    } else {
        Err(Error::OutOfMemory)
    }
}

/// The representation of a node with the given slots.
pub open spec fn node_bytes(block: Seq<Option<PointerModel>>) -> Seq<u8> {
    seq![1u8] + PointerBlock::spec_bytes(block)
}

/// The representation of an extension.
pub open spec fn extension_bytes(affix: Seq<u8>, pointer: PointerModel) -> Seq<u8> {
    seq![2u8] + Vec::<u8>::spec_bytes(affix) + Pointer::spec_bytes(pointer)
}

/// The pointer to the level below: to a leaf at the first step, else to a node.
pub open spec fn step_pointer(h: Seq<u8>, first: bool) -> PointerModel {
    if first {
        PointerModel::LeafPointer(h)
    } else {
        PointerModel::NodePointer(h)
    }
}

/// The hash of the node that a node step describes, with the level below in its hole.
pub open spec fn step_node_hash(
    hole_index: u8,
    others: Seq<(u8, PointerModel)>,
    below: PointerModel,
) -> Result<Seq<u8>, Error> {
    repr_hash(node_bytes(block_from(others.push((hole_index, below)))))
}

/// The hash of the level above, from step `s` and the hash `h` of the level below.
pub open spec fn step_hash(s: StepModel, h: Seq<u8>, first: bool) -> Result<Seq<u8>, Error> {
    let below = step_pointer(h, first);
    match s {
        StepModel::Node { hole_index, indexed_pointers_with_hole } => step_node_hash(
            hole_index,
            indexed_pointers_with_hole,
            below,
        ),
        StepModel::Extension { affix } => repr_hash(extension_bytes(affix, below)),
        StepModel::RoseLeafRose { leaf_hash } => Ok(spec_hash_pair(h, leaf_hash)),
        StepModel::RoseLeafLeaf { rose_hash } => Ok(spec_hash_pair(rose_hash, h)),
        StepModel::RoseExtensionRose { extension_hash } => Ok(spec_hash_pair(h, extension_hash)),
        StepModel::RoseExtensionExtension { rose_hash, affix } => match repr_hash(
            extension_bytes(affix, below),
        ) {
            Ok(x) => Ok(spec_hash_pair(rose_hash, x)),
            Err(e) => Err(e),
        },
        StepModel::RoseNodeRose { node_hash } => Ok(spec_hash_pair(h, node_hash)),
        StepModel::RoseNodeNode { rose_hash, hole_index, indexed_pointers_with_hole } => match
        step_node_hash(hole_index, indexed_pointers_with_hole, below) {
            Ok(x) => Ok(spec_hash_pair(rose_hash, x)),
            Err(e) => Err(e),
        },
    }
}

/// The hash after the first `n` steps, starting from `start`.
pub open spec fn fold_steps(start: Result<Seq<u8>, Error>, steps: Seq<StepModel>, n: nat) -> Result<
    Seq<u8>,
    Error,
>
    decreases n,
{
    if n == 0 {
        start
    } else {
        match fold_steps(start, steps, (n - 1) as nat) {
            Ok(h) => step_hash(steps[n - 1], h, n - 1 == 0),
            Err(e) => Err(e),
        }
    }
}

/// The model of a [`TrieMerkleProof`].
pub struct ProofModel<KV, VV> {
    pub key: KV,
    pub value: VV,
    pub proof_steps: Seq<StepModel>,
}

/// The root hash that a proof leads to: the hash of the leaf, then one step
/// after another.
pub open spec fn spec_compute_state_hash<K: FromBytes, V: FromBytes>(
    p: ProofModel<K::V, V::V>,
) -> Result<Seq<u8>, Error> {
    fold_steps(
        repr_hash(crate::trie::trie_bytes::<K, V>(TrieModel::Leaf { key: p.key, value: p.value })),
        p.proof_steps,
        p.proof_steps.len(),
    )
}

/// A proof that the entry with `key` and `value` is present in a Merkle trie.
/// Given a state hash `x`, a proof `p` is checked by testing
/// `x == p.compute_state_hash()`.
#[derive(Debug, Clone, PartialEq, Eq)]
pub struct TrieMerkleProof<K, V> {
    key: K,
    value: V,
    proof_steps: VecDeque<TrieMerkleProofStep>,
}

impl<K: DeepView, V: DeepView> DeepView for TrieMerkleProof<K, V> {
    type V = ProofModel<K::V, V::V>;

    closed spec fn deep_view(&self) -> ProofModel<K::V, V::V> {
        ProofModel {
            key: self.key.deep_view(),
            value: self.value.deep_view(),
            proof_steps: self.proof_steps.deep_view(),
        }
    }
}

/// Hashes `buf`, unless it is longer than `u32::MAX` bytes.
fn hash_repr(buf: &Vec<u8>) -> (r: Result<Blake2bHash, Error>)
    ensures
        match r {
            Ok(h) => repr_hash(buf@) == Ok::<Seq<u8>, Error>(h@),
            Err(e) => repr_hash(buf@) == Err::<Seq<u8>, Error>(e),
        },
{
    if buf.len() > 4294967295usize {
        Err(Error::OutOfMemory)
    } else {
        Ok(Blake2bHash::new(buf.as_slice()))
    }
}

/// The hash of the node holding `others` and `below` at `hole_index`.
fn node_hash_with(others: &Vec<(u8, Pointer)>, hole_index: u8, below: Pointer) -> (r: Result<
    Blake2bHash,
    Error,
>)
    ensures
        match r {
            Ok(h) => step_node_hash(hole_index, others.deep_view(), below.deep_view()) == Ok::<
                Seq<u8>,
                Error,
            >(h@),
            Err(e) => step_node_hash(hole_index, others.deep_view(), below.deep_view()) == Err::<
                Seq<u8>,
                Error,
            >(e),
        },
{
    let mut block = PointerBlock::from_indexed_pointers(others.as_slice());
    assert(others@.map_values(|x: (u8, Pointer)| (x.0, x.1.deep_view())) =~= others.deep_view());
    block.set(hole_index as usize, Some(below));
    let ghost all = others.deep_view().push((hole_index, below.deep_view()));
    assert(all.drop_last() =~= others.deep_view());
    let mut buf: Vec<u8> = Vec::new();
    buf.push(1u8);
    block.write_bytes(&mut buf);
    assert(buf@ =~= node_bytes(block_from(all)));
    hash_repr(&buf)
}

/// The hash of the extension with `affix` in front of `below`.
fn extension_hash_with(affix: &Vec<u8>, below: Pointer) -> (r: Result<Blake2bHash, Error>)
    ensures
        match r {
            Ok(h) => repr_hash(extension_bytes(affix@, below.deep_view())) == Ok::<Seq<u8>, Error>(
                h@,
            ),
            Err(e) => repr_hash(extension_bytes(affix@, below.deep_view())) == Err::<
                Seq<u8>,
                Error,
            >(e),
        },
{
    let mut buf: Vec<u8> = Vec::new();
    buf.push(2u8);
    affix.write_bytes(&mut buf);
    below.write_bytes(&mut buf);
    assert(affix.deep_view() =~= affix@);
    assert(buf@ =~= extension_bytes(affix@, below.deep_view()));
    hash_repr(&buf)
}

/// The hash of the level above, from `step` and the hash of the level below.
fn compute_step_hash(step: &TrieMerkleProofStep, hash: Blake2bHash, first: bool) -> (r: Result<
    Blake2bHash,
    Error,
>)
    ensures
        match r {
            Ok(h) => step_hash(step.deep_view(), hash@, first) == Ok::<Seq<u8>, Error>(h@),
            Err(e) => step_hash(step.deep_view(), hash@, first) == Err::<Seq<u8>, Error>(e),
        },
{
    let below = if first {
        Pointer::LeafPointer(hash)
    } else {
        Pointer::NodePointer(hash)
    };
    match step {
        TrieMerkleProofStep::Node { hole_index, indexed_pointers_with_hole } => {
            node_hash_with(indexed_pointers_with_hole, *hole_index, below)
        },
        TrieMerkleProofStep::Extension { affix } => extension_hash_with(affix, below),
        TrieMerkleProofStep::RoseLeafRose { leaf_hash } => Ok(hash_pair(&hash, leaf_hash)),
        TrieMerkleProofStep::RoseLeafLeaf { rose_hash } => Ok(hash_pair(rose_hash, &hash)),
        TrieMerkleProofStep::RoseExtensionRose { extension_hash } => Ok(
            hash_pair(&hash, extension_hash),
        ),
        TrieMerkleProofStep::RoseExtensionExtension { rose_hash, affix } => {
            match extension_hash_with(affix, below) {
                Ok(affix_hash) => Ok(hash_pair(rose_hash, &affix_hash)),
                Err(e) => Err(e),
            }
        },
        TrieMerkleProofStep::RoseNodeRose { node_hash } => Ok(hash_pair(&hash, node_hash)),
        TrieMerkleProofStep::RoseNodeNode { rose_hash, hole_index, indexed_pointers_with_hole } => {
            match node_hash_with(indexed_pointers_with_hole, *hole_index, below) {
                Ok(node_hash) => Ok(hash_pair(rose_hash, &node_hash)),
                Err(e) => Err(e),
            }
        },
    }
}

impl<K: FromBytes, V: FromBytes> TrieMerkleProof<K, V> {
    /// A proof of `key` and `value` by `proof_steps`, from the leaf up.
    pub fn new(key: K, value: V, proof_steps: VecDeque<TrieMerkleProofStep>) -> (p: Self)
        ensures
            p.deep_view() == (ProofModel {
                key: key.deep_view(),
                value: value.deep_view(),
                proof_steps: proof_steps.deep_view(),
            }),
    {
        TrieMerkleProof { key, value, proof_steps }
    }

    /// The key the proof is about.
    pub fn key(&self) -> (k: &K)
        ensures
            k.deep_view() == self.deep_view().key,
    {
        &self.key
    }

    /// The value the proof is about.
    pub fn value(&self) -> (v: &V)
        ensures
            v.deep_view() == self.deep_view().value,
    {
        &self.value
    }

    /// The steps from the leaf up to the root.
    pub fn proof_steps(&self) -> (s: &VecDeque<TrieMerkleProofStep>)
        ensures
            s.deep_view() == self.deep_view().proof_steps,
    {
        &self.proof_steps
    }

    /// The value the proof is about, taken out of the proof.
    pub fn into_value(self) -> (v: V)
        ensures
            v.deep_view() == self.deep_view().value,
    {
        self.value
    }

    /// Recomputes the root hash: the hash of the leaf made of the key and the
    /// value, then, step after step, the hash of the level above. The first
    /// step points down to a leaf, the others to nodes.
    pub fn compute_state_hash(&self) -> (r: Result<Blake2bHash, Error>)
        ensures
            match r {
                Ok(h) => spec_compute_state_hash::<K, V>(self.deep_view()) == Ok::<Seq<u8>, Error>(
                    h@,
                ),
                Err(e) => spec_compute_state_hash::<K, V>(self.deep_view()) == Err::<
                    Seq<u8>,
                    Error,
                >(e),
            },
    {
        let ghost steps = self.proof_steps.deep_view();
        let mut buf: Vec<u8> = Vec::new();
        buf.push(0u8);
        self.key.write_bytes(&mut buf);
        self.value.write_bytes(&mut buf);
        let ghost start = repr_hash(
            crate::trie::trie_bytes::<K, V>(
                TrieModel::Leaf { key: self.key.deep_view(), value: self.value.deep_view() },
            ),
        );
        assert(buf@ =~= crate::trie::trie_bytes::<K, V>(
            TrieModel::Leaf { key: self.key.deep_view(), value: self.value.deep_view() },
        ));
        let mut hash = match hash_repr(&buf) {
            Ok(h) => h,
            Err(e) => {
                proof {
                    lemma_fold_err(start, steps, 0, steps.len(), e);
                }
                return Err(e);
            },
        };
        let n = self.proof_steps.len();
        let mut i: usize = 0;
        while i < n
            invariant
                0 <= i <= n,
                n == steps.len(),
                steps == self.proof_steps.deep_view(),
                start == repr_hash(
                    crate::trie::trie_bytes::<K, V>(
                        TrieModel::Leaf { key: self.key.deep_view(), value: self.value.deep_view() },
                    ),
                ),
                fold_steps(start, steps, i as nat) == Ok::<Seq<u8>, Error>(hash@),
            decreases n - i,
        {
            let step = &self.proof_steps[i];
            assert(step.deep_view() == steps[i as int]);
            match compute_step_hash(step, hash, i == 0) {
                Ok(h) => {
                    hash = h;
                },
                Err(e) => {
                    proof {
                        assert(fold_steps(start, steps, (i + 1) as nat) == Err::<Seq<u8>, Error>(e));
                        lemma_fold_err(start, steps, (i + 1) as nat, n as nat, e);
                    }
                    return Err(e);
                },
            }
            i = i + 1;
        }
        Ok(hash)
    }
}

proof fn lemma_fold_err(start: Result<Seq<u8>, Error>, steps: Seq<StepModel>, n1: nat, n2: nat, e: Error)
    requires
        n1 <= n2,
        fold_steps(start, steps, n1) == Err::<Seq<u8>, Error>(e),
    ensures
        fold_steps(start, steps, n2) == Err::<Seq<u8>, Error>(e),
    decreases n2,
{
    if n1 < n2 {
        lemma_fold_err(start, steps, n1, (n2 - 1) as nat, e);
    }
}


type ProofParts<K, V> = (K, (V, VecDeque<TrieMerkleProofStep>));

/// The representation of a proof: the key, the value, then the steps.
pub open spec fn proof_bytes<K: FromBytes, V: FromBytes>(p: ProofModel<K::V, V::V>) -> Seq<u8> {
    ProofParts::<K, V>::spec_bytes((p.key, (p.value, p.proof_steps)))
}

impl<K: FromBytes, V: FromBytes> ToBytes for TrieMerkleProof<K, V> {
    open spec fn spec_valid(p: ProofModel<K::V, V::V>) -> bool {
        ProofParts::<K, V>::spec_valid((p.key, (p.value, p.proof_steps)))
    }

    open spec fn spec_bytes(p: ProofModel<K::V, V::V>) -> Seq<u8> {
        proof_bytes::<K, V>(p)
    }

    proof fn lemma_valid(&self) {
        self.key.lemma_valid();
        self.value.lemma_valid();
        self.proof_steps.lemma_valid();
    }

    proof fn lemma_nonempty(p: ProofModel<K::V, V::V>) {
        K::lemma_nonempty(p.key);
    }

    fn write_bytes(&self, buf: &mut Vec<u8>) {
        self.key.write_bytes(buf);
        self.value.write_bytes(buf);
        self.proof_steps.write_bytes(buf);
        assert(buf@ =~= old(buf)@ + proof_bytes::<K, V>(self.deep_view()));
    }

    fn serialized_length(&self) -> (n: usize) {
        self.key.serialized_length() + self.value.serialized_length()
            + self.proof_steps.serialized_length()
    }
}

impl<K: FromBytes, V: FromBytes> FromBytes for TrieMerkleProof<K, V> {
    open spec fn spec_parse(bytes: Seq<u8>) -> Result<(ProofModel<K::V, V::V>, nat), Error> {
        match ProofParts::<K, V>::spec_parse(bytes) {
            Ok((parts, k)) => Ok(
                (ProofModel { key: parts.0, value: parts.1.0, proof_steps: parts.1.1 }, k),
            ),
            Err(e) => Err(e),
        }
    }

    proof fn lemma_parse_bound(bytes: Seq<u8>) {
        ProofParts::<K, V>::lemma_parse_bound(bytes);
    }

    proof fn lemma_roundtrip(p: ProofModel<K::V, V::V>, rest: Seq<u8>) {
        ProofParts::<K, V>::lemma_roundtrip((p.key, (p.value, p.proof_steps)), rest);
    }

    fn from_bytes(bytes: &[u8]) -> (r: Result<(TrieMerkleProof<K, V>, &[u8]), Error>) {
        match ProofParts::<K, V>::from_bytes(bytes) {
            Ok(((key, (value, proof_steps)), rem)) => Ok(
                (TrieMerkleProof { key, value, proof_steps }, rem),
            ),
            Err(e) => Err(e),
        }
    }
}

/// Law: reading back the representation of a proof step gives the step,
/// with no bytes left over.
pub proof fn trie_merkle_proof_step_serialization_is_correct(s: StepModel)
    requires
        TrieMerkleProofStep::spec_valid(s),
        step_bytes(s).len() <= max_repr_len(),
    ensures
        crate::bytesrepr::spec_deserialize::<TrieMerkleProofStep>(step_bytes(s)) == Ok::<
            StepModel,
            Error,
        >(s),
{
    TrieMerkleProofStep::lemma_roundtrip(s, Seq::empty());
    assert(step_bytes(s) + Seq::<u8>::empty() =~= step_bytes(s));
}

/// Law: reading back the representation of a proof gives the proof, with no
/// bytes left over.
pub proof fn trie_merkle_proof_serialization_is_correct<K: FromBytes, V: FromBytes>(
    p: ProofModel<K::V, V::V>,
)
    requires
        TrieMerkleProof::<K, V>::spec_valid(p),
        proof_bytes::<K, V>(p).len() <= max_repr_len(),
    ensures
        crate::bytesrepr::spec_deserialize::<TrieMerkleProof<K, V>>(proof_bytes::<K, V>(p))
            == Ok::<ProofModel<K::V, V::V>, Error>(p),
{
    TrieMerkleProof::<K, V>::lemma_roundtrip(p, Seq::empty());
    assert(proof_bytes::<K, V>(p) + Seq::<u8>::empty() =~= proof_bytes::<K, V>(p));
}


/// Law: a step from the rose of a rose pair (beside a leaf, an extension or a
/// node) hashes the hash of the level below first and the other member's hash
/// second; a step from the leaf of a rose leaf, or from the extension (with
/// `affix`) of a rose extension, hashes the rose's hash first.
pub proof fn rose_pair_steps_hash_in_order(other: Seq<u8>, affix: Seq<u8>, h: Seq<u8>, first: bool)
    ensures
        step_hash(StepModel::RoseNodeRose { node_hash: other }, h, first) == Ok::<Seq<u8>, Error>(
            blake2b_digest(h + other),
        ),
        step_hash(StepModel::RoseLeafRose { leaf_hash: other }, h, first) == Ok::<Seq<u8>, Error>(
            blake2b_digest(h + other),
        ),
        step_hash(StepModel::RoseExtensionRose { extension_hash: other }, h, first) == Ok::<
            Seq<u8>,
            Error,
        >(blake2b_digest(h + other)),
        step_hash(StepModel::RoseLeafLeaf { rose_hash: other }, h, first) == Ok::<Seq<u8>, Error>(
            blake2b_digest(other + h),
        ),
        step_hash(StepModel::RoseExtensionExtension { rose_hash: other, affix }, h, first) == (match repr_hash(
            extension_bytes(affix, step_pointer(h, first)),
        ) {
            Ok(x) => Ok::<Seq<u8>, Error>(blake2b_digest(other + x)),
            Err(e) => Err(e),
        }),
{
}

/// Law: a proof whose only step comes from the rose beside a node with hash
/// `node_hash` leads to the digest of the leaf's hash followed by `node_hash`.
pub proof fn rose_beside_node_proof_root<K: FromBytes, V: FromBytes>(
    p: ProofModel<K::V, V::V>,
    node_hash: Seq<u8>,
)
    requires
        p.proof_steps == seq![StepModel::RoseNodeRose { node_hash }],
    ensures
        spec_compute_state_hash::<K, V>(p) == (match repr_hash(
            crate::trie::trie_bytes::<K, V>(TrieModel::Leaf { key: p.key, value: p.value }),
        ) {
            Ok(leaf_hash) => Ok::<Seq<u8>, Error>(blake2b_digest(leaf_hash + node_hash)),
            Err(e) => Err(e),
        }),
{
    reveal_with_fuel(fold_steps, 2);
}

} // verus!
