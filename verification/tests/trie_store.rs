use casper_state::bytesrepr::{deserialize, Error, FromBytes, ToBytes};
use casper_state::hash::Blake2bHash;
use casper_state::keys::{keys, keys_with_prefix};
use casper_state::operations::{read, read_with_proof, ReadResult, WriteResult};
use casper_state::store::InMemoryTrieStore;
use casper_state::trie::{Pointer, PointerBlock, Trie};

/// A store holding an empty root node, and the root's hash.
fn empty_store() -> (InMemoryTrieStore, Blake2bHash) {
    let mut store = InMemoryTrieStore::new();
    let root: Trie<u32, u32> = Trie::node(&[]);
    let root_hash = root.merkle_hash().unwrap();
    store.put(&root_hash, &root).unwrap();
    (store, root_hash)
}

fn write_all(store: &mut InMemoryTrieStore, root: Blake2bHash, entries: &[(u32, u32)]) -> Blake2bHash {
    let mut root = root;
    for (k, v) in entries {
        match casper_state::operations::write::<u32, u32>(store, &root, *k, *v).unwrap() {
            WriteResult::Written(h) => root = h,
            other => panic!("unexpected write result {:?}", other),
        }
    }
    root
}

fn collect_keys(store: &InMemoryTrieStore, root: &Blake2bHash, prefix: &[u8]) -> Vec<u32> {
    let mut it = keys_with_prefix::<u32, u32>(store, root, prefix);
    let mut out = Vec::new();
    while let Some(k) = it.next() {
        out.push(k.unwrap());
    }
    out
}

#[test]
fn read_after_write_finds_value() {
    let (mut store, root) = empty_store();
    let root = write_all(&mut store, root, &[(7, 70)]);
    assert_eq!(read::<u32, u32>(&store, &root, &7).unwrap(), ReadResult::Found(70));
}

#[test]
fn many_writes_read_back() {
    let (mut store, root) = empty_store();
    // Keys whose little-endian bytes share prefixes of various lengths, so
    // that leaves are reparented and extensions split.
    let entries: Vec<(u32, u32)> = vec![
        (0x0000_0001, 1),
        (0x0000_0101, 2),
        (0x0001_0101, 3),
        (0x0101_0101, 4),
        (0x0000_0002, 5),
        (0xffff_ffff, 6),
        (0x00ff_0001, 7),
    ];
    let root = write_all(&mut store, root, &entries);
    for (k, v) in &entries {
        assert_eq!(read::<u32, u32>(&store, &root, k).unwrap(), ReadResult::Found(*v));
    }
    assert_eq!(read::<u32, u32>(&store, &root, &0x0000_0003).unwrap(), ReadResult::NotFound);
    assert_eq!(read::<u32, u32>(&store, &root, &0x0100_0001).unwrap(), ReadResult::NotFound);
}

#[test]
fn overwrite_changes_value_and_root() {
    let (mut store, root) = empty_store();
    let root1 = write_all(&mut store, root, &[(5, 50), (6, 60)]);
    let root2 = write_all(&mut store, root1, &[(5, 51)]);
    assert_ne!(root1, root2);
    assert_eq!(read::<u32, u32>(&store, &root2, &5).unwrap(), ReadResult::Found(51));
    assert_eq!(read::<u32, u32>(&store, &root2, &6).unwrap(), ReadResult::Found(60));
    // The old root still gives the old value.
    assert_eq!(read::<u32, u32>(&store, &root1, &5).unwrap(), ReadResult::Found(50));
}

#[test]
fn a_write_leaves_other_entries_as_they_were() {
    let (mut store, root) = empty_store();
    let before: Vec<(u32, u32)> = vec![(0x0000_0001, 1), (0x0101_0101, 4), (0xffff_ffff, 6)];
    let mut root = write_all(&mut store, root, &before);
    // Each new key takes another of the write's shapes: a new child of a
    // node, a leaf turned into a node, an extension split, a value replaced.
    let writes: Vec<(u32, u32)> = vec![(0x0000_0002, 5), (0x0000_0101, 2), (0x0001_0101, 3), (0x0000_0001, 9)];
    let mut present: Vec<(u32, u32)> = before.clone();
    for (k, v) in writes {
        let new_root = write_all(&mut store, root, &[(k, v)]);
        for (k2, v2) in &present {
            if *k2 != k {
                assert_eq!(read::<u32, u32>(&store, &new_root, k2).unwrap(), ReadResult::Found(*v2));
                assert_eq!(read::<u32, u32>(&store, &root, k2).unwrap(), ReadResult::Found(*v2));
            }
        }
        // Keys with no entry before have none after, the written key aside.
        for absent in [0x0000_0003u32, 0x0101_0102, 0x7777_7777] {
            if absent != k && !present.iter().any(|(k2, _)| *k2 == absent) {
                assert_eq!(read::<u32, u32>(&store, &new_root, &absent).unwrap(), ReadResult::NotFound);
            }
        }
        present.retain(|(k2, _)| *k2 != k);
        present.push((k, v));
        root = new_root;
    }
}

#[test]
fn writing_same_entry_again_already_exists() {
    let (mut store, root) = empty_store();
    let root = write_all(&mut store, root, &[(9, 90)]);
    assert_eq!(casper_state::operations::write::<u32, u32>(&mut store, &root, 9, 90).unwrap(), WriteResult::AlreadyExists);
}

#[test]
fn write_to_missing_root_is_root_not_found() {
    let mut store = InMemoryTrieStore::new();
    let missing = Blake2bHash([3u8; 32]);
    assert_eq!(casper_state::operations::write::<u32, u32>(&mut store, &missing, 1, 2).unwrap(), WriteResult::RootNotFound);
}

#[test]
fn read_of_missing_root_is_root_not_found() {
    let store = InMemoryTrieStore::new();
    let missing = Blake2bHash([4u8; 32]);
    assert_eq!(read::<u32, u32>(&store, &missing, &1).unwrap(), ReadResult::RootNotFound);
}

#[test]
fn read_of_bad_bytes_is_an_error() {
    let mut store = InMemoryTrieStore::new();
    // The bytes of a leaf with one-byte key and value, read as a leaf with
    // four-byte ones, end too soon.
    let leaf: Trie<u8, u8> = Trie::leaf(1, 2);
    let hash = Blake2bHash([2u8; 32]);
    store.put(&hash, &leaf).unwrap();
    assert_eq!(read::<u32, u32>(&store, &hash, &1), Err(Error::EarlyEndOfStream));
    assert_eq!(casper_state::operations::write::<u32, u32>(&mut store, &hash, 1, 1), Err(Error::EarlyEndOfStream));
}

#[test]
fn unknown_trie_tag_is_a_formatting_error() {
    assert_eq!(deserialize::<Trie<u32, u32>>(&[3u8]), Err(Error::Formatting));
    assert_eq!(deserialize::<Trie<u32, u32>>(&[]), Err(Error::EarlyEndOfStream));
    let leaf: Trie<u32, u32> = Trie::leaf(1, 2);
    let mut bytes = leaf.to_bytes().unwrap();
    bytes.push(0);
    assert_eq!(deserialize::<Trie<u32, u32>>(&bytes), Err(Error::LeftOverBytes));
}

#[test]
fn proof_of_read_computes_root() {
    let (mut store, root) = empty_store();
    let entries: Vec<(u32, u32)> = vec![(1, 10), (0x0101, 20), (0x0201, 30), (0x0102_0304, 40)];
    let root = write_all(&mut store, root, &entries);
    for (k, v) in &entries {
        match read_with_proof::<u32, u32>(&store, &root, k).unwrap() {
            ReadResult::Found(proof) => {
                assert_eq!(*proof.key(), *k);
                assert_eq!(*proof.value(), *v);
                assert_eq!(proof.compute_state_hash().unwrap(), root);
            }
            other => panic!("no proof for {}: {:?}", k, other),
        }
    }
}

#[test]
fn proof_of_single_leaf_root_is_its_hash() {
    let mut store = InMemoryTrieStore::new();
    let leaf: Trie<u32, u32> = Trie::leaf(3, 4);
    let hash = leaf.merkle_hash().unwrap();
    store.put(&hash, &leaf).unwrap();
    match read_with_proof::<u32, u32>(&store, &hash, &3).unwrap() {
        ReadResult::Found(proof) => {
            assert!(proof.proof_steps().is_empty());
            assert_eq!(proof.compute_state_hash().unwrap(), hash);
        }
        other => panic!("unexpected {:?}", other),
    }
}

#[test]
fn keys_are_walked_in_path_order() {
    let (mut store, root) = empty_store();
    let entries: Vec<(u32, u32)> = vec![(0x0302, 1), (0x0101, 2), (0x0201, 3), (0x0102, 4), (5, 5)];
    let root = write_all(&mut store, root, &entries);
    let mut it = keys::<u32, u32>(&store, &root);
    let mut found = Vec::new();
    while let Some(k) = it.next() {
        found.push(k.unwrap());
    }
    // Ordered by the little-endian bytes of the keys.
    assert_eq!(found, vec![0x0101, 0x0201, 0x0102, 0x0302, 5]);
}

#[test]
fn keys_with_prefix_keeps_the_subtrie() {
    let (mut store, root) = empty_store();
    let entries: Vec<(u32, u32)> = vec![(0x0302, 1), (0x0101, 2), (0x0201, 3), (0x0102, 4), (5, 5)];
    let root = write_all(&mut store, root, &entries);
    assert_eq!(collect_keys(&store, &root, &[1]), vec![0x0101, 0x0201]);
    assert_eq!(collect_keys(&store, &root, &[2]), vec![0x0102, 0x0302]);
    assert_eq!(collect_keys(&store, &root, &[2, 3]), vec![0x0302]);
    assert_eq!(collect_keys(&store, &root, &[9]), Vec::<u32>::new());
    assert_eq!(collect_keys(&store, &root, &[]), vec![0x0101, 0x0201, 0x0102, 0x0302, 5]);
}

#[test]
fn keys_of_missing_root_are_none() {
    let store = InMemoryTrieStore::new();
    let missing = Blake2bHash([8u8; 32]);
    assert_eq!(collect_keys(&store, &missing, &[]), Vec::<u32>::new());
}

#[test]
fn keys_error_is_returned_once_then_nothing() {
    let mut store = InMemoryTrieStore::new();
    // A leaf's bytes stored under a hash, read back as a trie of another key type
    // that needs more bytes than there are.
    let leaf: Trie<u8, u8> = Trie::leaf(1, 2);
    let hash = Blake2bHash([1u8; 32]);
    store.put(&hash, &leaf).unwrap();
    let mut it = keys::<u32, u32>(&store, &hash);
    assert_eq!(it.next(), Some(Err(Error::EarlyEndOfStream)));
    assert_eq!(it.next(), None);
    assert_eq!(it.next(), None);
}

#[test]
fn store_get_bytes_and_put() {
    let mut store = InMemoryTrieStore::new();
    let leaf: Trie<u32, u32> = Trie::leaf(1, 2);
    let hash = leaf.merkle_hash().unwrap();
    assert!(store.get_bytes(&hash).is_none());
    store.put(&hash, &leaf).unwrap();
    assert_eq!(store.get_bytes(&hash).unwrap().clone(), leaf.to_bytes().unwrap());
    assert_eq!(store.get::<u32, u32>(&hash).unwrap(), Some(leaf));
}

#[test]
fn node_with_pointer_round_trips() {
    let p = Pointer::LeafPointer(Blake2bHash([7; 32]));
    let node: Trie<u32, u32> = Trie::node(&[(3, p)]);
    let bytes = node.to_bytes().unwrap();
    assert_eq!(bytes[0], 1);
    let (back, rest) = Trie::<u32, u32>::from_bytes(&bytes).unwrap();
    assert!(rest.is_empty());
    assert_eq!(back, node);
    let mut block = PointerBlock::new();
    block.set(3, Some(p));
    assert_eq!(block.get(3), Some(p));
    assert_eq!(block.get(4), None);
}

#[test]
fn keys_of_many_writes_are_all_found() {
    let (mut store, root) = empty_store();
    // A fixed pseudo-random choice of keys, with repeats.
    let mut x: u32 = 12345;
    let mut entries: Vec<(u32, u32)> = Vec::new();
    for i in 0..100u32 {
        x = x.wrapping_mul(1_103_515_245).wrapping_add(12_345);
        entries.push((x % 4096, i));
    }
    let mut root = root;
    let mut expected: Vec<u32> = Vec::new();
    for (k, v) in &entries {
        match casper_state::operations::write::<u32, u32>(&mut store, &root, *k, *v).unwrap() {
            WriteResult::Written(h) => root = h,
            WriteResult::AlreadyExists => {},
            other => panic!("unexpected write result {:?}", other),
        }
        if !expected.contains(k) {
            expected.push(*k);
        }
    }
    let mut found = collect_keys(&store, &root, &[]);
    found.sort();
    expected.sort();
    assert_eq!(found, expected);
    for k in &expected {
        let last = entries.iter().rev().find(|(k2, _)| k2 == k).unwrap().1;
        assert_eq!(read::<u32, u32>(&store, &root, k).unwrap(), ReadResult::Found(last));
    }
}

#[test]
fn read_goes_through_an_extension_without_bytes() {
    let mut store = InMemoryTrieStore::new();
    let leaf: Trie<u32, u32> = Trie::leaf(0x0403_0201, 9);
    let leaf_hash = leaf.merkle_hash().unwrap();
    store.put(&leaf_hash, &leaf).unwrap();
    let node: Trie<u32, u32> = Trie::node(&[(1, Pointer::LeafPointer(leaf_hash))]);
    let node_hash = node.merkle_hash().unwrap();
    store.put(&node_hash, &node).unwrap();
    let ext: Trie<u32, u32> = Trie::extension(vec![], Pointer::NodePointer(node_hash));
    let root = ext.merkle_hash().unwrap();
    store.put(&root, &ext).unwrap();
    assert_eq!(read::<u32, u32>(&store, &root, &0x0403_0201).unwrap(), ReadResult::Found(9));
    assert_eq!(read::<u32, u32>(&store, &root, &0x0403_0202).unwrap(), ReadResult::NotFound);
    match read_with_proof::<u32, u32>(&store, &root, &0x0403_0201).unwrap() {
        ReadResult::Found(proof) => assert_eq!(proof.compute_state_hash().unwrap(), root),
        _ => panic!("the leaf should be found"),
    }
}

#[test]
fn write_goes_through_an_extension_without_bytes() {
    let mut store = InMemoryTrieStore::new();
    let leaf: Trie<u32, u32> = Trie::leaf(0x0403_0201, 9);
    let leaf_hash = leaf.merkle_hash().unwrap();
    store.put(&leaf_hash, &leaf).unwrap();
    let node: Trie<u32, u32> = Trie::node(&[(1, Pointer::LeafPointer(leaf_hash))]);
    let node_hash = node.merkle_hash().unwrap();
    store.put(&node_hash, &node).unwrap();
    let ext: Trie<u32, u32> = Trie::extension(vec![], Pointer::NodePointer(node_hash));
    let root = ext.merkle_hash().unwrap();
    store.put(&root, &ext).unwrap();
    let new_root = write_all(&mut store, root, &[(0x0403_0202, 7)]);
    assert_ne!(new_root, root);
    assert_eq!(read::<u32, u32>(&store, &new_root, &0x0403_0202).unwrap(), ReadResult::Found(7));
    assert_eq!(read::<u32, u32>(&store, &new_root, &0x0403_0201).unwrap(), ReadResult::Found(9));
    // The new root is an extension without bytes too.
    let new_root_trie = store.get::<u32, u32>(&new_root).unwrap().unwrap();
    match new_root_trie {
        Trie::Extension { affix, .. } => assert!(affix.is_empty()),
        _ => panic!("the root should still be an extension"),
    }
}
