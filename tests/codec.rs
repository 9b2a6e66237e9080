use mls_tree::astree::ASTreeNode;
use mls_tree::codec::{decode_vec, encode_vec, Codec, CodecError, VecSize};
use mls_tree::config::Ciphersuite;
use mls_tree::node::{
    HpkeCiphertext, HpkeKeyPair, HpkePrivateKey, HpkePublicKey, KeyPackage, Node, NodeType, ParentNode,
};
use mls_tree::tree::{PathKeypairs, RatchetTree, UpdatePath, UpdatePathNode};

fn bytes_of<T: Codec>(v: &T) -> Vec<u8> {
    let mut buf = Vec::new();
    v.encode(&mut buf).unwrap();
    buf
}

fn pk(b: &[u8]) -> HpkePublicKey {
    HpkePublicKey { bytes: b.to_vec() }
}

fn sample_tree() -> RatchetTree {
    RatchetTree {
        ciphersuite: Ciphersuite { id: 1 },
        nodes: vec![
            Node::Leaf(KeyPackage { bytes: vec![0xA] }),
            Node::Parent(ParentNode { public_key: pk(&[1, 2]), unmerged_leaves: vec![2] }),
            Node::Leaf(KeyPackage { bytes: vec![0xB] }),
            Node::Empty,
            Node::Leaf(KeyPackage { bytes: vec![0xC] }),
            Node::Empty,
            Node::Empty,
        ],
        path_keypairs: PathKeypairs {
            keypairs: vec![HpkeKeyPair { private_key: HpkePrivateKey { bytes: vec![9, 9] }, public_key: pk(&[1, 2]) }],
        },
        own_leaf_index: 1,
    }
}

#[test]
fn integers_are_big_endian() {
    assert_eq!(bytes_of(&0x0102u16), vec![1, 2]);
    assert_eq!(bytes_of(&0x01020304u32), vec![1, 2, 3, 4]);
    assert_eq!(u32::decode(&vec![0xde, 0xad, 0xbe, 0xef], 0), Ok((0xdeadbeef, 4)));
    assert_eq!(u16::decode(&vec![0, 0xff, 0x01], 1), Ok((0xff01, 3)));
}

#[test]
fn truncated_integer_is_end_of_stream() {
    assert_eq!(u32::decode(&vec![1, 2, 3], 0), Err(CodecError::EndOfStream));
    assert_eq!(u8::decode(&vec![], 0), Err(CodecError::EndOfStream));
}

#[test]
fn byte_vector_prefix_widths() {
    let items: Vec<u8> = vec![7, 8];
    for (size, prefix) in [(VecSize::VecU8, vec![2]), (VecSize::VecU16, vec![0, 2]), (VecSize::VecU32, vec![0, 0, 0, 2])] {
        let mut buf = vec![0xff];
        encode_vec(size, &mut buf, &items).unwrap();
        let mut expected = vec![0xff];
        expected.extend(prefix);
        expected.extend([7, 8]);
        assert_eq!(buf, expected);
        assert_eq!(decode_vec::<u8>(size, &buf, 1), Ok((items.clone(), buf.len())));
    }
}

#[test]
fn node_type_discriminants() {
    assert_eq!(bytes_of(&NodeType::Leaf), vec![0]);
    assert_eq!(bytes_of(&NodeType::Parent), vec![1]);
    assert_eq!(bytes_of(&NodeType::Empty), vec![255]);
    assert_eq!(NodeType::decode(&vec![7], 0), Err(CodecError::UnknownValue));
}

#[test]
fn node_encodings() {
    assert_eq!(bytes_of(&Node::Empty), vec![255]);
    assert_eq!(bytes_of(&Node::Leaf(KeyPackage { bytes: vec![5] })), vec![0, 0, 0, 0, 1, 5]);
    let parent = Node::Parent(ParentNode { public_key: pk(&[3]), unmerged_leaves: vec![4] });
    assert_eq!(bytes_of(&parent), vec![1, 0, 1, 3, 0, 0, 0, 1, 0, 0, 0, 4]);
    assert_eq!(Node::Leaf(KeyPackage { bytes: vec![] }).node_type(), NodeType::Leaf);
}

#[test]
fn unknown_node_discriminant_is_rejected() {
    assert_eq!(Node::decode(&vec![2, 0, 0], 0), Err(CodecError::UnknownValue));
}

#[test]
fn node_round_trip() {
    for node in [
        Node::Empty,
        Node::Leaf(KeyPackage { bytes: vec![1, 2, 3] }),
        Node::Parent(ParentNode { public_key: pk(&[4, 5]), unmerged_leaves: vec![0, 6, 70000] }),
    ] {
        let buf = bytes_of(&node);
        assert_eq!(Node::decode(&buf, 0), Ok((node, buf.len())));
    }
}

#[test]
fn ratchet_tree_round_trip() {
    let tree = sample_tree();
    let buf = bytes_of(&tree);
    assert_eq!(&buf[..2], &[0, 1]);
    assert_eq!(&buf[2..6], &[0, 0, 0, 7]);
    // the own leaf is leaf 1, at slot 2: its leaf index ends the encoding
    assert_eq!(&buf[buf.len() - 4..], &[0, 0, 0, 1]);
    assert_eq!(RatchetTree::decode(&buf, 0), Ok((tree, buf.len())));
}

#[test]
fn update_path_round_trip() {
    let path = UpdatePath {
        leaf_key_package: KeyPackage { bytes: vec![1] },
        nodes: vec![
            UpdatePathNode {
                public_key: pk(&[2]),
                encrypted_path_secret: vec![HpkeCiphertext { bytes: vec![3, 3] }, HpkeCiphertext { bytes: vec![] }],
            },
            UpdatePathNode { public_key: pk(&[4]), encrypted_path_secret: vec![] },
        ],
    };
    let buf = bytes_of(&path);
    // key package, then a two-byte count of path nodes
    assert_eq!(&buf[..7], &[0, 0, 0, 1, 1, 0, 2]);
    assert_eq!(UpdatePath::decode(&buf, 0), Ok((path, buf.len())));
}

#[test]
fn astree_node_round_trip() {
    let node = ASTreeNode { secret: vec![0x11; 32] };
    let buf = bytes_of(&node);
    assert_eq!(buf[0], 32);
    assert_eq!(buf.len(), 33);
    assert_eq!(ASTreeNode::decode(&buf, 0), Ok((node, 33)));
}

#[test]
fn oversized_secret_is_not_encodable() {
    let node = ASTreeNode { secret: vec![0; 256] };
    let mut buf = Vec::new();
    assert_eq!(node.encode(&mut buf), Err(CodecError::EncodingTooLarge));
    let node = ASTreeNode { secret: vec![0; 255] };
    assert!(node.encode(&mut buf).is_ok());
}

#[test]
fn length_prefix_beyond_input() {
    assert_eq!(ASTreeNode::decode(&vec![5, 1, 2], 0), Err(CodecError::LengthExceedsInput));
}

#[test]
fn truncated_structure_is_rejected() {
    let buf = bytes_of(&sample_tree());
    for cut in 0..buf.len() {
        assert!(RatchetTree::decode(&buf[..cut].to_vec(), 0).is_err());
    }
}

#[test]
fn distinct_values_encode_differently() {
    let a = bytes_of(&Node::Leaf(KeyPackage { bytes: vec![1] }));
    let b = bytes_of(&Node::Leaf(KeyPackage { bytes: vec![1, 0] }));
    let c = bytes_of(&Node::Parent(ParentNode { public_key: pk(&[1]), unmerged_leaves: vec![] }));
    assert_ne!(a, b);
    assert_ne!(a, c);
    assert_ne!(b, c);
}
