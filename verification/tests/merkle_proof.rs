use std::collections::VecDeque;

use casper_state::bytesrepr::{deserialize, Error, FromBytes, ToBytes};
use casper_state::hash::{hash_pair, Blake2bHash};
use casper_state::merkle_proof::{TrieMerkleProof, TrieMerkleProofStep};
use casper_state::trie::{Pointer, Trie};

fn all_steps() -> Vec<TrieMerkleProofStep> {
    let h1 = Blake2bHash([1; 32]);
    let h2 = Blake2bHash([2; 32]);
    let ptrs = vec![(0u8, Pointer::LeafPointer(h1)), (255u8, Pointer::NodePointer(h2))];
    vec![
        TrieMerkleProofStep::node(7, ptrs.clone()),
        TrieMerkleProofStep::extension(vec![1, 2, 3]),
        TrieMerkleProofStep::RoseLeafRose { leaf_hash: h1 },
        TrieMerkleProofStep::RoseLeafLeaf { rose_hash: h2 },
        TrieMerkleProofStep::RoseExtensionRose { extension_hash: h1 },
        TrieMerkleProofStep::RoseExtensionExtension { rose_hash: h2, affix: vec![9] },
        TrieMerkleProofStep::RoseNodeRose { node_hash: h1 },
        TrieMerkleProofStep::RoseNodeNode { rose_hash: h2, hole_index: 3, indexed_pointers_with_hole: ptrs },
    ]
}

#[test]
fn every_step_round_trips() {
    for (tag, step) in all_steps().into_iter().enumerate() {
        let bytes = step.to_bytes().unwrap();
        assert_eq!(bytes[0] as usize, tag);
        assert_eq!(bytes.len(), step.serialized_length());
        assert_eq!(deserialize::<TrieMerkleProofStep>(&bytes), Ok(step));
    }
}

#[test]
fn step_with_unknown_tag_is_refused() {
    assert_eq!(deserialize::<TrieMerkleProofStep>(&[8u8]), Err(Error::Formatting));
    assert_eq!(deserialize::<TrieMerkleProofStep>(&[2u8, 1]), Err(Error::EarlyEndOfStream));
}

#[test]
fn extension_step_bytes() {
    let step = TrieMerkleProofStep::extension(vec![0xaa, 0xbb]);
    assert_eq!(step.to_bytes().unwrap(), vec![1, 2, 0, 0, 0, 0xaa, 0xbb]);
}

#[test]
fn proof_round_trips() {
    let steps: VecDeque<TrieMerkleProofStep> = all_steps().into_iter().collect();
    let proof: TrieMerkleProof<u32, Vec<u8>> = TrieMerkleProof::new(11, vec![4, 5], steps);
    let bytes = proof.to_bytes().unwrap();
    assert_eq!(bytes.len(), proof.serialized_length());
    let (back, rest) = TrieMerkleProof::<u32, Vec<u8>>::from_bytes(&bytes).unwrap();
    assert!(rest.is_empty());
    assert_eq!(back, proof);
    assert_eq!(back.into_value(), vec![4, 5]);
}

#[test]
fn proof_list_round_trips() {
    let p1: TrieMerkleProof<u32, u32> = TrieMerkleProof::new(1, 2, VecDeque::new());
    let p2: TrieMerkleProof<u32, u32> =
        TrieMerkleProof::new(3, 4, all_steps().into_iter().take(2).collect());
    let list = vec![p1, p2];
    let bytes = list.to_bytes().unwrap();
    assert_eq!(deserialize::<Vec<TrieMerkleProof<u32, u32>>>(&bytes), Ok(list));
}

#[test]
fn state_hash_of_leaf_only_proof_is_leaf_hash() {
    let proof: TrieMerkleProof<u32, u32> = TrieMerkleProof::new(1, 2, VecDeque::new());
    let leaf: Trie<u32, u32> = Trie::leaf(1, 2);
    assert_eq!(proof.compute_state_hash(), leaf.merkle_hash());
    // A leaf's representation is its tag, then its key and value.
    assert_eq!(leaf.to_bytes().unwrap(), vec![0, 1, 0, 0, 0, 2, 0, 0, 0]);
    assert_eq!(leaf.merkle_hash().unwrap(), Blake2bHash::new(&[0, 1, 0, 0, 0, 2, 0, 0, 0]));
}

#[test]
fn state_hash_goes_through_extension_and_node() {
    let leaf: Trie<u32, u32> = Trie::leaf(1, 2);
    let leaf_hash = leaf.merkle_hash().unwrap();
    let ext: Trie<u32, u32> = Trie::extension(vec![5, 6], Pointer::LeafPointer(leaf_hash));
    let ext_hash = ext.merkle_hash().unwrap();
    let other = Pointer::NodePointer(Blake2bHash([9; 32]));
    let node: Trie<u32, u32> = Trie::node(&[(0, other), (4, Pointer::NodePointer(ext_hash))]);
    let node_hash = node.merkle_hash().unwrap();
    let mut steps = VecDeque::new();
    steps.push_back(TrieMerkleProofStep::extension(vec![5, 6]));
    steps.push_back(TrieMerkleProofStep::node(4, vec![(0, other)]));
    let proof: TrieMerkleProof<u32, u32> = TrieMerkleProof::new(1, 2, steps);
    assert_eq!(proof.compute_state_hash().unwrap(), node_hash);
}

#[test]
fn rose_steps_hash_pairs() {
    let leaf: Trie<u32, u32> = Trie::leaf(1, 2);
    let leaf_hash = leaf.merkle_hash().unwrap();
    let other = Blake2bHash([6; 32]);
    let mut steps = VecDeque::new();
    steps.push_back(TrieMerkleProofStep::RoseLeafRose { leaf_hash: other });
    let proof: TrieMerkleProof<u32, u32> = TrieMerkleProof::new(1, 2, steps);
    assert_eq!(proof.compute_state_hash().unwrap(), hash_pair(&leaf_hash, &other));
    let mut steps = VecDeque::new();
    steps.push_back(TrieMerkleProofStep::RoseLeafLeaf { rose_hash: other });
    let proof: TrieMerkleProof<u32, u32> = TrieMerkleProof::new(1, 2, steps);
    assert_eq!(proof.compute_state_hash().unwrap(), hash_pair(&other, &leaf_hash));
}

#[test]
fn blake2b_of_empty_input() {
    let h = Blake2bHash::new(&[]);
    let expected: [u8; 32] = [
        0x0e, 0x57, 0x51, 0xc0, 0x26, 0xe5, 0x43, 0xb2, 0xe8, 0xab, 0x2e, 0xb0, 0x60, 0x99, 0xda,
        0xa1, 0xd1, 0xe5, 0xdf, 0x47, 0x77, 0x8f, 0x77, 0x87, 0xfa, 0xab, 0x45, 0xcd, 0xf1, 0x2f,
        0xe3, 0xa8,
    ];
    assert_eq!(h, Blake2bHash(expected));
    assert!(h.same_as(&Blake2bHash(expected)));
    assert!(!h.same_as(&Blake2bHash([0; 32])));
}

#[test]
fn hash_pair_hashes_concatenation() {
    let a = Blake2bHash([1; 32]);
    let b = Blake2bHash([2; 32]);
    let mut both = vec![1u8; 32];
    both.extend(vec![2u8; 32]);
    assert_eq!(hash_pair(&a, &b), Blake2bHash::new(&both));
    assert_ne!(hash_pair(&a, &b), hash_pair(&b, &a));
}

#[test]
fn integers_and_lists_round_trip() {
    assert_eq!(0x0403_0201u32.to_bytes().unwrap(), vec![1, 2, 3, 4]);
    assert_eq!(deserialize::<u32>(&[1, 2, 3, 4]), Ok(0x0403_0201));
    assert_eq!(deserialize::<u32>(&[1, 2, 3]), Err(Error::EarlyEndOfStream));
    assert_eq!(deserialize::<u8>(&[1, 2]), Err(Error::LeftOverBytes));
    let v: Vec<u8> = vec![7, 8];
    assert_eq!(v.to_bytes().unwrap(), vec![2, 0, 0, 0, 7, 8]);
    assert_eq!(deserialize::<Vec<u8>>(&[2, 0, 0, 0, 7, 8]), Ok(vec![7, 8]));
    let o: Option<u8> = Some(5);
    assert_eq!(o.to_bytes().unwrap(), vec![1, 5]);
    assert_eq!(deserialize::<Option<u8>>(&[0]), Ok(None));
    assert_eq!(deserialize::<Option<u8>>(&[2]), Err(Error::Formatting));
    let pair: (u8, u32) = (1, 2);
    assert_eq!(pair.to_bytes().unwrap(), vec![1, 2, 0, 0, 0]);
    assert_eq!(deserialize::<(u8, u32)>(&[1, 2, 0, 0, 0]), Ok((1, 2)));
    let d: VecDeque<u8> = vec![3, 4].into_iter().collect();
    assert_eq!(deserialize::<VecDeque<u8>>(&d.to_bytes().unwrap()), Ok(d));
}
