use mls_tree::codec::Codec;
use mls_tree::config::Ciphersuite;
use mls_tree::node::{HpkeCiphertext, HpkeKeyPair, HpkePrivateKey, HpkePublicKey, KeyPackage, Node, ParentNode};
use mls_tree::tree::{PathKeypairs, RatchetTree, TreeError, UpdatePath, UpdatePathNode};

fn keypair() -> HpkeKeyPair {
    HpkeKeyPair { private_key: HpkePrivateKey { bytes: vec![7] }, public_key: HpkePublicKey { bytes: vec![8] } }
}

fn levels(leaves: usize) -> usize {
    let mut k = 0;
    while (1usize << k) < leaves {
        k += 1;
    }
    k
}

/// A tree with one path key pair per level above the leaves.
fn tree_of(nodes: Vec<Node>, own: u32) -> RatchetTree {
    let leaves = (nodes.len() + 1) / 2;
    RatchetTree {
        ciphersuite: Ciphersuite { id: 1 },
        nodes,
        path_keypairs: PathKeypairs { keypairs: vec![keypair(); levels(leaves)] },
        own_leaf_index: own,
    }
}

fn leaf(b: u8) -> Node {
    Node::Leaf(KeyPackage { bytes: vec![b] })
}

#[test]
fn size_law_on_valid_trees() {
    for leaves in 1..6usize {
        let mut nodes = Vec::new();
        for i in 0..(2 * leaves - 1) {
            nodes.push(if i % 2 == 0 { leaf(i as u8) } else { Node::Empty });
        }
        let t = tree_of(nodes, 0);
        assert!(t.is_well_formed());
        assert_eq!(t.leaf_count() as usize, leaves);
        assert_eq!(t.node_count(), 2 * t.leaf_count() as usize - 1);
    }
}

#[test]
fn malformed_trees_are_detected() {
    assert!(!tree_of(vec![], 0).is_well_formed());
    assert!(!tree_of(vec![leaf(1), Node::Empty], 0).is_well_formed());
    assert!(!tree_of(vec![leaf(1), leaf(2), leaf(3)], 0).is_well_formed());
    let parent = Node::Parent(ParentNode { public_key: HpkePublicKey { bytes: vec![1] }, unmerged_leaves: vec![] });
    assert!(!tree_of(vec![parent, Node::Empty, leaf(3)], 1).is_well_formed());
    // own leaf index out of range, or naming a blank leaf
    assert!(!tree_of(vec![leaf(1), Node::Empty, leaf(3)], 2).is_well_formed());
    assert!(!tree_of(vec![leaf(1), Node::Empty, Node::Empty], 1).is_well_formed());
    assert!(tree_of(vec![leaf(1), Node::Empty, leaf(3)], 1).is_well_formed());
    assert!(tree_of(vec![leaf(1), Node::Empty, leaf(3)], 0).is_well_formed());
}

#[test]
fn path_key_pairs_must_match_tree_height() {
    let mut t = tree_of(vec![leaf(1), Node::Empty, leaf(3), Node::Empty, leaf(5)], 0);
    assert_eq!(t.path_keypairs.keypairs.len(), 2);
    assert!(t.is_well_formed());
    t.path_keypairs.keypairs.pop();
    assert!(!t.is_well_formed());
    let single = tree_of(vec![leaf(1)], 0);
    assert!(single.path_keypairs.keypairs.is_empty());
    assert!(single.is_well_formed());
}

#[test]
fn unmerged_leaf_must_name_a_member() {
    let good = Node::Parent(ParentNode { public_key: HpkePublicKey { bytes: vec![1] }, unmerged_leaves: vec![1] });
    assert!(tree_of(vec![leaf(1), good.clone(), leaf(3)], 0).is_well_formed());
    assert!(!tree_of(vec![leaf(1), good, Node::Empty], 0).is_well_formed());
    let out_of_range = Node::Parent(ParentNode { public_key: HpkePublicKey { bytes: vec![1] }, unmerged_leaves: vec![2] });
    assert!(!tree_of(vec![leaf(1), out_of_range, leaf(3)], 0).is_well_formed());
}

fn parent(unmerged: Vec<u32>) -> Node {
    Node::Parent(ParentNode { public_key: HpkePublicKey { bytes: vec![0x50] }, unmerged_leaves: unmerged })
}

#[test]
fn blanked_leaf_contributes_nothing_to_root_resolution() {
    let four = tree_of(vec![leaf(0xA), Node::Empty, leaf(0xB), Node::Empty, leaf(0xC), Node::Empty, Node::Empty], 0);
    let three = tree_of(vec![leaf(0xA), Node::Empty, leaf(0xB), Node::Empty, leaf(0xC)], 0);
    assert_eq!(four.root_resolution(), vec![0, 2, 4]);
    assert_eq!(three.root_resolution(), vec![0, 2, 4]);
}

#[test]
fn resolution_with_parents_and_unmerged_leaves() {
    let t = tree_of(vec![leaf(0xA), parent(vec![1]), leaf(0xB), Node::Empty, leaf(0xC), Node::Empty, leaf(0xD)], 0);
    assert_eq!(t.root_resolution(), vec![1, 2, 4, 6]);
    assert_eq!(t.resolution(1, 1), vec![1, 2]);
    assert_eq!(t.resolution(5, 1), vec![4, 6]);
    assert_eq!(t.resolution(4, 0), vec![4]);
    let full = tree_of(vec![leaf(0xA), parent(vec![]), leaf(0xB), parent(vec![2]), leaf(0xC), Node::Empty, leaf(0xD)], 0);
    assert_eq!(full.root_resolution(), vec![3, 4]);
}

#[test]
fn fully_blank_tree_resolves_to_nothing() {
    let t = tree_of(vec![Node::Empty, Node::Empty, Node::Empty], 0);
    assert_eq!(t.root_resolution(), Vec::<u64>::new());
    let single = tree_of(vec![leaf(1)], 0);
    assert_eq!(single.root_resolution(), vec![0]);
}

fn four_members() -> RatchetTree {
    tree_of(vec![leaf(0xA), parent(vec![]), leaf(0xB), parent(vec![]), leaf(0xC), parent(vec![]), leaf(0xD)], 0)
}

#[test]
fn remove_blanks_only_the_leaf_when_siblings_remain() {
    let mut t = four_members();
    t.apply_remove(2);
    assert_eq!(t.nodes[4], Node::Empty);
    assert!(matches!(t.nodes[5], Node::Parent(_)));
    assert!(matches!(t.nodes[3], Node::Parent(_)));
    assert!(t.is_well_formed());
    assert_eq!(t.node_count(), 7);
}

#[test]
fn remove_blanks_ancestors_whose_other_side_is_blank() {
    let mut t = four_members();
    t.apply_remove(3);
    assert_eq!(t.nodes[6], Node::Empty);
    t.apply_remove(2);
    assert_eq!(t.nodes[4], Node::Empty);
    assert_eq!(t.nodes[5], Node::Empty);
    assert!(matches!(t.nodes[3], Node::Parent(_)));
    assert!(matches!(t.nodes[1], Node::Parent(_)));
}

#[test]
fn remove_then_resolve_excludes_removed_leaf() {
    let mut t = tree_of(vec![leaf(0xA), Node::Empty, leaf(0xB), Node::Empty, leaf(0xC), Node::Empty, leaf(0xD)], 0);
    t.apply_remove(2);
    assert_eq!(t.root_resolution(), vec![0, 2, 6]);
    assert_eq!(t.resolution(5, 1), vec![6]);
}

#[test]
fn add_fills_first_blank_leaf_and_marks_ancestors() {
    let mut t = four_members();
    t.apply_remove(1);
    assert_eq!(t.nodes[2], Node::Empty);
    let new_leaf = KeyPackage { bytes: vec![0xE] };
    let idx = t.apply_add(new_leaf.clone());
    assert_eq!(idx, 1);
    assert_eq!(t.node_count(), 7);
    assert_eq!(t.nodes[2], Node::Leaf(new_leaf));
    assert_eq!(t.nodes[1], parent(vec![1]));
    assert_eq!(t.nodes[3], parent(vec![1]));
    assert_eq!(t.nodes[5], parent(vec![]));
    assert!(t.is_well_formed());
}

#[test]
fn add_to_full_tree_doubles_it() {
    let mut t = tree_of(vec![leaf(0xA), parent(vec![]), leaf(0xB)], 0);
    let idx = t.apply_add(KeyPackage { bytes: vec![0xC] });
    assert_eq!(idx, 2);
    assert_eq!(t.node_count(), 7);
    assert_eq!(t.leaf_count(), 4);
    assert_eq!(t.nodes[4], Node::Leaf(KeyPackage { bytes: vec![0xC] }));
    assert_eq!(t.nodes[1], parent(vec![]));
    assert_eq!(t.nodes[3], Node::Empty);
    assert_eq!(t.nodes[5], Node::Empty);
    assert_eq!(t.nodes[6], Node::Empty);
    // the new level above the own leaf has no path key pair yet
    assert!(!t.is_well_formed());
    t.path_keypairs.keypairs.push(keypair());
    assert!(t.is_well_formed());
    let mut single = tree_of(vec![leaf(0xA)], 0);
    assert_eq!(single.apply_add(KeyPackage { bytes: vec![0xB] }), 1);
    assert_eq!(single.node_count(), 3);
    assert_eq!(single.root_resolution(), vec![0, 2]);
}

fn path_with_counts(counts: &[usize]) -> UpdatePath {
    UpdatePath {
        leaf_key_package: KeyPackage { bytes: vec![0xF] },
        nodes: counts
            .iter()
            .map(|&c| UpdatePathNode {
                public_key: HpkePublicKey { bytes: vec![1] },
                encrypted_path_secret: vec![HpkeCiphertext { bytes: vec![2] }; c],
            })
            .collect(),
    }
}

#[test]
fn update_path_must_match_tree_height() {
    let t = tree_of(vec![leaf(0xA), Node::Empty, leaf(0xB), Node::Empty, leaf(0xC), Node::Empty, leaf(0xD)], 0);
    assert_eq!(t.height(), 2);
    assert_eq!(t.validate_update_path(0, &path_with_counts(&[1])), Err(TreeError::PathLengthMismatch));
    assert_eq!(t.validate_update_path(0, &path_with_counts(&[1, 2, 1])), Err(TreeError::PathLengthMismatch));
}

#[test]
fn update_path_ciphertexts_follow_copath_resolutions() {
    let t = tree_of(vec![leaf(0xA), Node::Empty, leaf(0xB), Node::Empty, leaf(0xC), Node::Empty, leaf(0xD)], 0);
    assert_eq!(t.validate_update_path(0, &path_with_counts(&[1, 2])), Ok(()));
    assert_eq!(t.validate_update_path(0, &path_with_counts(&[1, 1])), Err(TreeError::CiphertextCountMismatch));
    assert_eq!(t.validate_update_path(3, &path_with_counts(&[1, 2])), Ok(()));
    assert_eq!(t.validate_update_path(3, &path_with_counts(&[2, 2])), Err(TreeError::CiphertextCountMismatch));
}

#[test]
fn removed_member_is_owed_no_ciphertext() {
    let mut t = tree_of(vec![leaf(0xA), Node::Empty, leaf(0xB), Node::Empty, leaf(0xC), Node::Empty, leaf(0xD)], 0);
    t.apply_remove(2);
    assert_eq!(t.validate_update_path(0, &path_with_counts(&[1, 2])), Err(TreeError::CiphertextCountMismatch));
    assert_eq!(t.validate_update_path(0, &path_with_counts(&[1, 1])), Ok(()));
    assert_eq!(t.validate_update_path(3, &path_with_counts(&[0, 2])), Ok(()));
}

#[test]
fn three_leaf_tree_paths() {
    let t = tree_of(vec![leaf(0xA), parent(vec![]), leaf(0xB), Node::Empty, leaf(0xC)], 0);
    assert_eq!(t.height(), 2);
    // leaf 2's level-1 copath node lies beyond the array and is blank
    assert_eq!(t.validate_update_path(2, &path_with_counts(&[0, 1])), Ok(()));
    assert_eq!(t.validate_update_path(0, &path_with_counts(&[1, 1])), Ok(()));
}

#[test]
fn removing_an_added_member_drops_it_from_unmerged_lists() {
    let mut t = four_members();
    t.apply_remove(1);
    assert_eq!(t.apply_add(KeyPackage { bytes: vec![0xE] }), 1);
    assert_eq!(t.resolution(1, 1), vec![1, 2]);
    t.apply_remove(1);
    assert_eq!(t.nodes[2], Node::Empty);
    assert_eq!(t.nodes[1], parent(vec![]));
    assert_eq!(t.nodes[3], parent(vec![]));
    assert_eq!(t.resolution(1, 1), vec![1]);
    assert_eq!(t.root_resolution(), vec![3]);
    assert!(t.is_well_formed());
}

#[test]
fn own_leaf_index_is_written_as_leaf_number() {
    let t = tree_of(vec![leaf(0xA), Node::Empty, leaf(0xB)], 1);
    let mut buf = Vec::new();
    t.encode(&mut buf).unwrap();
    assert_eq!(&buf[buf.len() - 4..], &[0, 0, 0, 1]);
    assert_eq!(RatchetTree::decode(&buf, 0), Ok((t, buf.len())));
}
