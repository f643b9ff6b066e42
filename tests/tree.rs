use mls_core::node::{Node, ParentNode};
use mls_core::proposal::{LeafIndex, LeafNode, LeafNodeSource, SigningIdentity};
use mls_core::tree::{covers, RatchetTree, TreeError};

fn leaf(name: &str, key: u8) -> LeafNode {
    LeafNode {
        public_key: vec![key; 32],
        signing_identity: SigningIdentity { signature_key: vec![key; 32], credential_type: 1, credential_data: name.as_bytes().to_vec() },
        leaf_node_source: LeafNodeSource::Update,
        signature: vec![0; 64],
    }
}

fn is_blank(t: &RatchetTree, x: usize) -> bool {
    t.nodes[x].is_none()
}

#[test]
fn ancestry_by_index() {
    // Slot 3 is the root of a four-leaf tree; slot 1 is above leaves 0 and 1.
    assert!(covers(3, 0) && covers(3, 3));
    assert!(covers(1, 0) && covers(1, 1));
    assert!(!covers(1, 2));
    assert!(covers(5, 2) && !covers(5, 1));
    assert!(!covers(2, 1));
    assert!(covers(7, 7) && !covers(7, 8));
}

#[test]
fn three_members_fill_a_four_leaf_tree() {
    let mut t = RatchetTree::new();
    assert_eq!(t.add_leaf(leaf("alice", 1)), Ok(LeafIndex(0)));
    assert_eq!(t.add_leaf(leaf("bob", 2)), Ok(LeafIndex(1)));
    assert_eq!(t.add_leaf(leaf("charlie", 3)), Ok(LeafIndex(2)));
    assert_eq!(t.nodes.len(), 7);
    for x in [0, 2, 4] {
        assert!(!is_blank(&t, x));
    }
    for x in [1, 3, 5, 6] {
        assert!(is_blank(&t, x));
    }
    assert_eq!(t.leaf(LeafIndex(1)).unwrap().signing_identity.credential_data, b"bob".to_vec());
}

#[test]
fn duplicate_key_is_refused_and_tree_kept() {
    let mut t = RatchetTree::new();
    t.add_leaf(leaf("alice", 1)).unwrap();
    t.add_leaf(leaf("bob", 2)).unwrap();
    let before = t.clone();
    assert_eq!(t.add_leaf(leaf("bob again", 2)), Err(TreeError::DuplicateLeafKey));
    assert_eq!(t, before);
}

#[test]
fn added_leaf_is_unmerged_in_parents_above() {
    let mut t = RatchetTree::new();
    t.add_leaf(leaf("a", 1)).unwrap();
    t.add_leaf(leaf("b", 2)).unwrap();
    t.add_leaf(leaf("c", 3)).unwrap();
    t.nodes[3] = Some(Node::Parent(ParentNode { public_key: vec![9], parent_hash: vec![], unmerged_leaves: vec![2] }));
    t.nodes[1] = Some(Node::Parent(ParentNode { public_key: vec![8], parent_hash: vec![], unmerged_leaves: vec![] }));
    assert_eq!(t.add_leaf(leaf("d", 4)), Ok(LeafIndex(3)));
    match &t.nodes[3] {
        Some(Node::Parent(p)) => assert_eq!(p.unmerged_leaves, vec![2, 3]),
        _ => panic!("root should stay"),
    }
    match &t.nodes[1] {
        Some(Node::Parent(p)) => assert!(p.unmerged_leaves.is_empty()),
        _ => panic!("left parent should stay"),
    }
}

#[test]
fn update_then_remove() {
    let mut t = RatchetTree::new();
    t.add_leaf(leaf("alice", 1)).unwrap();
    t.add_leaf(leaf("bob", 2)).unwrap();
    t.add_leaf(leaf("charlie", 3)).unwrap();
    t.nodes[1] = Some(Node::Parent(ParentNode { public_key: vec![7], parent_hash: vec![], unmerged_leaves: vec![] }));
    t.nodes[3] = Some(Node::Parent(ParentNode { public_key: vec![8], parent_hash: vec![], unmerged_leaves: vec![] }));
    t.nodes[5] = Some(Node::Parent(ParentNode { public_key: vec![9], parent_hash: vec![], unmerged_leaves: vec![] }));

    assert_eq!(t.update_leaf(LeafIndex(1), leaf("bob2", 4)), Ok(()));
    assert_eq!(t.leaf(LeafIndex(1)).unwrap().public_key, vec![4; 32]);
    assert!(is_blank(&t, 1) && is_blank(&t, 3));
    assert!(!is_blank(&t, 5));

    assert_eq!(t.remove_leaf(LeafIndex(2)), Ok(()));
    // The right half is now blank, so the tree shrinks to two leaves.
    assert_eq!(t.nodes.len(), 3);
    assert!(t.leaf(LeafIndex(2)).is_none());
    assert_eq!(t.remove_leaf(LeafIndex(2)), Err(TreeError::BlankLeaf(2)));
    assert_eq!(t.update_leaf(LeafIndex(5), leaf("x", 5)), Err(TreeError::BlankLeaf(5)));
}

#[test]
fn resolution_of_blank_and_filled_slots() {
    let mut t = RatchetTree::new();
    t.add_leaf(leaf("alice", 1)).unwrap();
    t.add_leaf(leaf("bob", 2)).unwrap();
    t.add_leaf(leaf("charlie", 3)).unwrap();
    assert_eq!(t.resolution(3), vec![0, 2, 4]);
    assert_eq!(t.resolution(5), vec![4]);
    assert_eq!(t.resolution(6), Vec::<usize>::new());
    t.nodes[1] = Some(Node::Parent(ParentNode { public_key: vec![7], parent_hash: vec![], unmerged_leaves: vec![] }));
    assert_eq!(t.resolution(3), vec![1, 4]);
    assert_eq!(t.resolution(0), vec![0]);
}
