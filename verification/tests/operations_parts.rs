use casper_state::hash::Blake2bHash;
use casper_state::operations::{
    add_node_to_parents, common_prefix, get_parents_path, reparent_leaf, split_extension,
    TrieScan,
};
use casper_state::trie::{Pointer, Trie};

#[test]
fn common_prefix_examples() {
    assert_eq!(common_prefix(&[1u8, 2, 3], &[1u8, 2, 4]), vec![1, 2]);
    assert_eq!(common_prefix(&[1u8, 2], &[1u8, 2, 4]), vec![1, 2]);
    assert_eq!(common_prefix(&[5u8], &[1u8]), Vec::<u8>::new());
    assert_eq!(common_prefix::<u8>(&[], &[1]), Vec::<u8>::new());
}

#[test]
fn parents_path_takes_node_bytes_and_extension_affixes() {
    let node: Trie<u32, u32> = Trie::node(&[]);
    let ext: Trie<u32, u32> = Trie::extension(vec![7, 8], Pointer::NodePointer(Blake2bHash([0; 32])));
    let parents = vec![(3u8, node.clone()), (7u8, ext), (9u8, node)];
    assert_eq!(get_parents_path(&parents), vec![3, 7, 8, 9]);
    assert_eq!(get_parents_path::<u32, u32>(&[]), Vec::<u8>::new());
}

#[test]
fn new_node_is_added_with_next_path_byte() {
    let node: Trie<u32, u32> = Trie::node(&[]);
    let parents = vec![(1u8, node.clone())];
    let out = add_node_to_parents(&[1, 2, 3], node.clone(), parents).unwrap();
    assert_eq!(out, vec![(1u8, node.clone()), (2u8, node)]);
}

#[test]
fn reparenting_a_leaf_with_a_longer_shared_path() {
    let leaf_pointer = Pointer::LeafPointer(Blake2bHash([4; 32]));
    let parent: Trie<u32, u32> = Trie::node(&[(1, leaf_pointer)]);
    let parents = vec![(1u8, parent.clone())];
    // The paths share [1, 2, 3] and part at the fourth byte.
    let (new_node, new_parents) = reparent_leaf(&[1, 2, 3, 4], &[1, 2, 3, 5], parents).unwrap();
    assert_eq!(new_node, Trie::node(&[(5, leaf_pointer)]));
    let new_node_hash = new_node.merkle_hash().unwrap();
    assert_eq!(
        new_parents,
        vec![(1u8, parent), (1u8, Trie::extension(vec![2, 3], Pointer::NodePointer(new_node_hash)))]
    );
}

#[test]
fn reparenting_a_leaf_right_below_its_node() {
    let leaf_pointer = Pointer::LeafPointer(Blake2bHash([4; 32]));
    let parent: Trie<u32, u32> = Trie::node(&[(1, leaf_pointer)]);
    let parents = vec![(1u8, parent.clone())];
    let (new_node, new_parents) = reparent_leaf(&[1, 4, 0, 0], &[1, 5, 0, 0], parents).unwrap();
    assert_eq!(new_node, Trie::node(&[(5, leaf_pointer)]));
    assert_eq!(new_parents, vec![(1u8, parent)]);
}

#[test]
fn reparenting_a_leaf_whose_path_goes_on_past_the_new_one() {
    let leaf_pointer = Pointer::LeafPointer(Blake2bHash([4; 32]));
    let parent: Trie<u32, u32> = Trie::node(&[(1, leaf_pointer)]);
    let parents = vec![(1u8, parent.clone())];
    // The new path is all shared: the node holds the existing leaf alone.
    let (new_node, new_parents) = reparent_leaf(&[1, 2], &[1, 2, 3], parents).unwrap();
    assert_eq!(new_node, Trie::node(&[(3, leaf_pointer)]));
    let new_node_hash = new_node.merkle_hash().unwrap();
    assert_eq!(new_parents, vec![(1u8, parent), (1u8, Trie::extension(vec![2], Pointer::NodePointer(new_node_hash)))]);
}

#[test]
fn splitting_an_extension_in_its_middle() {
    let target = Pointer::NodePointer(Blake2bHash([6; 32]));
    let ext: Trie<u32, u32> = Trie::extension(vec![1, 2, 3, 4], target);
    let res = split_extension(&[1, 2, 9, 0], ext, Vec::new()).unwrap();
    // Below the new node: an extension over what is left of the affix.
    let child: Trie<u32, u32> = Trie::extension(vec![4], target);
    let child_hash = child.merkle_hash().unwrap();
    assert_eq!(res.maybe_hashed_child_extension, Some((child_hash, child)));
    assert_eq!(res.new_node, Trie::node(&[(3, Pointer::NodePointer(child_hash))]));
    // Above it: an extension over the shared bytes.
    let node_hash = res.new_node.merkle_hash().unwrap();
    assert_eq!(res.parents, vec![(1u8, Trie::extension(vec![1, 2], Pointer::NodePointer(node_hash)))]);
}

#[test]
fn splitting_an_extension_at_its_first_byte() {
    let target = Pointer::NodePointer(Blake2bHash([6; 32]));
    let ext: Trie<u32, u32> = Trie::extension(vec![1, 2], target);
    let res = split_extension(&[5, 0, 0, 0], ext, Vec::new()).unwrap();
    let child: Trie<u32, u32> = Trie::extension(vec![2], target);
    let child_hash = child.merkle_hash().unwrap();
    assert_eq!(res.maybe_hashed_child_extension, Some((child_hash, child)));
    assert_eq!(res.new_node, Trie::node(&[(1, Pointer::NodePointer(child_hash))]));
    assert!(res.parents.is_empty());
}

#[test]
fn splitting_an_extension_at_its_last_byte() {
    let target = Pointer::NodePointer(Blake2bHash([6; 32]));
    let ext: Trie<u32, u32> = Trie::extension(vec![1, 2], target);
    let res = split_extension(&[1, 5, 0, 0], ext, Vec::new()).unwrap();
    assert_eq!(res.maybe_hashed_child_extension, None);
    assert_eq!(res.new_node, Trie::node(&[(2, target)]));
    let node_hash = res.new_node.merkle_hash().unwrap();
    assert_eq!(res.parents, vec![(1u8, Trie::extension(vec![1], Pointer::NodePointer(node_hash)))]);
}

#[test]
fn scan_result_holds_its_parts() {
    let tip: Trie<u32, u32> = Trie::leaf(1, 2);
    let scan = TrieScan::new(tip.clone(), Vec::new());
    assert_eq!(scan.tip, tip);
    assert!(scan.parents.is_empty());
}
