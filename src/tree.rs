use vstd::arithmetic::power2::{lemma_pow2_pos, lemma_pow2_unfold, pow2};
use vstd::prelude::*;

use crate::codec::{
    deep_seq, enc_vec, encode_vec, decode_vec, lemma_cancel, lemma_extends_append, lemma_extends_trans,
    lemma_starts_at_split, lemma_vec_prefix_free,
    starts_at, vec_valid, Codec, CodecError, VecSize,
};
use crate::config::Ciphersuite;
use crate::node::{HpkeCiphertext, HpkeKeyPair, HpkePublicKey, KeyPackage, Node, NodeView, ParentNode};

verus! {

/// The local member's key pairs along its path, one per ancestor of its leaf,
/// leaf side first: the one at position `i` belongs to the ancestor at level
/// `i + 1`.
#[derive(Clone, Debug, PartialEq, Eq)]
pub struct PathKeypairs {
    pub keypairs: Vec<HpkeKeyPair>,
}

/// The ratchet tree as the local member holds it.
#[derive(Clone, Debug, PartialEq, Eq)]
pub struct RatchetTree {
    pub ciphersuite: Ciphersuite,
    /// The slots, in array order: leaves at even positions, parents at odd ones.
    pub nodes: Vec<Node>,
    pub path_keypairs: PathKeypairs,
    /// Leaf index of the local member: its leaf sits at slot `2 * own_leaf_index`.
    pub own_leaf_index: u32,
}

/// One ancestor's entry in an update path: its new public key and its path
/// secret encrypted to each member of the copath node's resolution.
#[derive(Clone, Debug, PartialEq, Eq)]
pub struct UpdatePathNode {
    pub public_key: HpkePublicKey,
    pub encrypted_path_secret: Vec<HpkeCiphertext>,
}

/// What a committer sends: its new key package and one entry per ancestor,
/// leaf side first.
#[derive(Clone, Debug, PartialEq, Eq)]
pub struct UpdatePath {
    pub leaf_key_package: KeyPackage,
    pub nodes: Vec<UpdatePathNode>,
}

impl DeepView for PathKeypairs {
    type V = Seq<(Seq<u8>, Seq<u8>)>;

    open spec fn deep_view(&self) -> Seq<(Seq<u8>, Seq<u8>)> {
        self.keypairs.deep_view()
    }
}

impl Codec for PathKeypairs {
    open spec fn valid(&self) -> bool {
        vec_valid(VecSize::VecU32, self.keypairs@)
    }

    open spec fn enc(&self) -> Seq<u8> {
        enc_vec(VecSize::VecU32, self.keypairs@)
    }

    proof fn lemma_enc_nonempty(&self) {
    }

    proof fn lemma_enc_prefix_free(&self, other: &Self, s: Seq<u8>, t: Seq<u8>) {
        lemma_vec_prefix_free(VecSize::VecU32, self.keypairs@, other.keypairs@, s, t);
        assert(self.keypairs.deep_view() =~= deep_seq(self.keypairs@));
        assert(other.keypairs.deep_view() =~= deep_seq(other.keypairs@));
    }

    fn encode(&self, buffer: &mut Vec<u8>) -> (r: Result<(), CodecError>) {
        let ghost b0 = buffer@;
        let r = encode_vec(VecSize::VecU32, buffer, &self.keypairs);
        if r.is_err() {
            return r;
        }
        assert(buffer@ =~= b0 + self.enc());
        Ok(())
    }

    fn decode(data: &Vec<u8>, pos: usize) -> (r: Result<(Self, usize), CodecError>) {
        let (keypairs, p0) = match decode_vec::<HpkeKeyPair>(VecSize::VecU32, data, pos) {
            Ok(x) => x,
            Err(e) => {
                assert forall|v: Self| #[trigger] v.valid() && starts_at(data@, pos as int, v.enc()) implies false by {
                    assert(vec_valid(VecSize::VecU32, v.keypairs@));
                }
                return Err(e);
            },
        };
        let res = PathKeypairs { keypairs };
        proof {
            assert forall|v: Self| #[trigger] v.valid() && starts_at(data@, pos as int, v.enc()) implies res.deep_view() == v.deep_view() && res.enc() == v.enc() by {
                assert(vec_valid(VecSize::VecU32, v.keypairs@));
                assert(res.keypairs.deep_view().len() == res.keypairs@.len());
                assert(res.keypairs@.len() == v.keypairs@.len());
                assert(v.keypairs.deep_view() =~= deep_seq(v.keypairs@));
            }
        }
        Ok((res, p0))
    }
}

impl DeepView for RatchetTree {
    type V = (u16, Seq<NodeView>, Seq<(Seq<u8>, Seq<u8>)>, u32);

    open spec fn deep_view(&self) -> (u16, Seq<NodeView>, Seq<(Seq<u8>, Seq<u8>)>, u32) {
        (self.ciphersuite.deep_view(), self.nodes.deep_view(), self.path_keypairs.deep_view(), self.own_leaf_index.deep_view())
    }
}

impl Codec for RatchetTree {
    open spec fn valid(&self) -> bool {
        self.ciphersuite.valid() && vec_valid(VecSize::VecU32, self.nodes@) && self.path_keypairs.valid() && self.own_leaf_index.valid()
    }

    open spec fn enc(&self) -> Seq<u8> {
        self.ciphersuite.enc() + (enc_vec(VecSize::VecU32, self.nodes@) + (self.path_keypairs.enc() + self.own_leaf_index.enc()))
    }

    proof fn lemma_enc_nonempty(&self) {
        self.ciphersuite.lemma_enc_nonempty();
    }

    proof fn lemma_enc_prefix_free(&self, other: &Self, s: Seq<u8>, t: Seq<u8>) {
        let s1 = enc_vec(VecSize::VecU32, self.nodes@) + (self.path_keypairs.enc() + self.own_leaf_index.enc()) + s;
        let t1 = enc_vec(VecSize::VecU32, other.nodes@) + (other.path_keypairs.enc() + other.own_leaf_index.enc()) + t;
        assert(self.enc() + s =~= self.ciphersuite.enc() + s1);
        assert(other.enc() + t =~= other.ciphersuite.enc() + t1);
        self.ciphersuite.lemma_enc_prefix_free(&other.ciphersuite, s1, t1);
        lemma_cancel(self.ciphersuite.enc(), s1, t1);
        let s2 = self.path_keypairs.enc() + self.own_leaf_index.enc() + s;
        let t2 = other.path_keypairs.enc() + other.own_leaf_index.enc() + t;
        assert(enc_vec(VecSize::VecU32, self.nodes@) + (self.path_keypairs.enc() + self.own_leaf_index.enc()) + s =~= enc_vec(VecSize::VecU32, self.nodes@) + s2);
        assert(enc_vec(VecSize::VecU32, other.nodes@) + (other.path_keypairs.enc() + other.own_leaf_index.enc()) + t =~= enc_vec(VecSize::VecU32, other.nodes@) + t2);
        lemma_vec_prefix_free(VecSize::VecU32, self.nodes@, other.nodes@, s2, t2);
        lemma_cancel(enc_vec(VecSize::VecU32, self.nodes@), s2, t2);
        let s3 = self.own_leaf_index.enc() + s;
        let t3 = other.own_leaf_index.enc() + t;
        assert(self.path_keypairs.enc() + self.own_leaf_index.enc() + s =~= self.path_keypairs.enc() + s3);
        assert(other.path_keypairs.enc() + other.own_leaf_index.enc() + t =~= other.path_keypairs.enc() + t3);
        self.path_keypairs.lemma_enc_prefix_free(&other.path_keypairs, s3, t3);
        lemma_cancel(self.path_keypairs.enc(), s3, t3);
        self.own_leaf_index.lemma_enc_prefix_free(&other.own_leaf_index, s, t);
        assert(self.nodes.deep_view() =~= deep_seq(self.nodes@));
        assert(other.nodes.deep_view() =~= deep_seq(other.nodes@));
    }

    fn encode(&self, buffer: &mut Vec<u8>) -> (r: Result<(), CodecError>) {
        let ghost b0 = buffer@;
        let r = self.ciphersuite.encode(buffer);
        if r.is_err() {
            return r;
        }
        let ghost b1 = buffer@;
        let r = encode_vec(VecSize::VecU32, buffer, &self.nodes);
        if r.is_err() {
            proof {
                assert(b1 =~= b0 + b1.subrange(b0.len() as int, b1.len() as int));
                lemma_extends_append(b0, b1.subrange(b0.len() as int, b1.len() as int));
                lemma_extends_trans(b0, b1, buffer@);
            }
            return r;
        }
        let ghost b2 = buffer@;
        let r = self.path_keypairs.encode(buffer);
        if r.is_err() {
            proof {
                assert(b2 =~= b0 + b2.subrange(b0.len() as int, b2.len() as int));
                lemma_extends_append(b0, b2.subrange(b0.len() as int, b2.len() as int));
                lemma_extends_trans(b0, b2, buffer@);
            }
            return r;
        }
        let ghost b3 = buffer@;
        let r = self.own_leaf_index.encode(buffer);
        if r.is_err() {
            proof {
                assert(b3 =~= b0 + b3.subrange(b0.len() as int, b3.len() as int));
                lemma_extends_append(b0, b3.subrange(b0.len() as int, b3.len() as int));
                lemma_extends_trans(b0, b3, buffer@);
            }
            return r;
        }
        assert(buffer@ =~= b0 + self.enc());
        Ok(())
    }

    fn decode(data: &Vec<u8>, pos: usize) -> (r: Result<(Self, usize), CodecError>) {
        let (ciphersuite, p0) = match Ciphersuite::decode(data, pos) {
            Ok(x) => x,
            Err(e) => {
                assert forall|v: Self| #[trigger] v.valid() && starts_at(data@, pos as int, v.enc()) implies false by {
                    lemma_starts_at_split(data@, pos as int, v.ciphersuite.enc(), enc_vec(VecSize::VecU32, v.nodes@) + (v.path_keypairs.enc() + v.own_leaf_index.enc()));
                    assert(v.ciphersuite.valid());
                }
                return Err(e);
            },
        };
        let (nodes, p1) = match decode_vec::<Node>(VecSize::VecU32, data, p0) {
            Ok(x) => x,
            Err(e) => {
                assert forall|v: Self| #[trigger] v.valid() && starts_at(data@, pos as int, v.enc()) implies false by {
                    lemma_starts_at_split(data@, pos as int, v.ciphersuite.enc(), enc_vec(VecSize::VecU32, v.nodes@) + (v.path_keypairs.enc() + v.own_leaf_index.enc()));
                    lemma_starts_at_split(data@, pos as int + v.ciphersuite.enc().len(), enc_vec(VecSize::VecU32, v.nodes@), v.path_keypairs.enc() + v.own_leaf_index.enc());
                    assert(v.ciphersuite.valid());
                    assert(vec_valid(VecSize::VecU32, v.nodes@));
                }
                return Err(e);
            },
        };
        let (path_keypairs, p2) = match PathKeypairs::decode(data, p1) {
            Ok(x) => x,
            Err(e) => {
                assert forall|v: Self| #[trigger] v.valid() && starts_at(data@, pos as int, v.enc()) implies false by {
                    lemma_starts_at_split(data@, pos as int, v.ciphersuite.enc(), enc_vec(VecSize::VecU32, v.nodes@) + (v.path_keypairs.enc() + v.own_leaf_index.enc()));
                    lemma_starts_at_split(data@, pos as int + v.ciphersuite.enc().len(), enc_vec(VecSize::VecU32, v.nodes@), v.path_keypairs.enc() + v.own_leaf_index.enc());
                    lemma_starts_at_split(data@, pos as int + v.ciphersuite.enc().len() + enc_vec(VecSize::VecU32, v.nodes@).len(), v.path_keypairs.enc(), v.own_leaf_index.enc());
                    assert(v.ciphersuite.valid());
                    assert(vec_valid(VecSize::VecU32, v.nodes@));
                    assert(v.path_keypairs.valid());
                    assert(nodes.deep_view().len() == nodes@.len());
                    assert(nodes@.len() == v.nodes@.len());
                }
                return Err(e);
            },
        };
        let (own_leaf_index, p3) = match u32::decode(data, p2) {
            Ok(x) => x,
            Err(e) => {
                assert forall|v: Self| #[trigger] v.valid() && starts_at(data@, pos as int, v.enc()) implies false by {
                    lemma_starts_at_split(data@, pos as int, v.ciphersuite.enc(), enc_vec(VecSize::VecU32, v.nodes@) + (v.path_keypairs.enc() + v.own_leaf_index.enc()));
                    lemma_starts_at_split(data@, pos as int + v.ciphersuite.enc().len(), enc_vec(VecSize::VecU32, v.nodes@), v.path_keypairs.enc() + v.own_leaf_index.enc());
                    lemma_starts_at_split(data@, pos as int + v.ciphersuite.enc().len() + enc_vec(VecSize::VecU32, v.nodes@).len(), v.path_keypairs.enc(), v.own_leaf_index.enc());
                    assert(v.ciphersuite.valid());
                    assert(vec_valid(VecSize::VecU32, v.nodes@));
                    assert(v.path_keypairs.valid());
                    assert(v.own_leaf_index.valid());
                    assert(nodes.deep_view().len() == nodes@.len());
                    assert(nodes@.len() == v.nodes@.len());
                }
                return Err(e);
            },
        };
        let res = RatchetTree { ciphersuite, nodes, path_keypairs, own_leaf_index };
        proof {
            lemma_starts_at_split(data@, p1 as int, res.path_keypairs.enc(), res.own_leaf_index.enc());
            lemma_starts_at_split(data@, p0 as int, enc_vec(VecSize::VecU32, res.nodes@), res.path_keypairs.enc() + res.own_leaf_index.enc());
            lemma_starts_at_split(data@, pos as int, res.ciphersuite.enc(), enc_vec(VecSize::VecU32, res.nodes@) + (res.path_keypairs.enc() + res.own_leaf_index.enc()));
            assert forall|v: Self| #[trigger] v.valid() && starts_at(data@, pos as int, v.enc()) implies res.deep_view() == v.deep_view() && res.enc() == v.enc() by {
                lemma_starts_at_split(data@, pos as int, v.ciphersuite.enc(), enc_vec(VecSize::VecU32, v.nodes@) + (v.path_keypairs.enc() + v.own_leaf_index.enc()));
                lemma_starts_at_split(data@, pos as int + v.ciphersuite.enc().len(), enc_vec(VecSize::VecU32, v.nodes@), v.path_keypairs.enc() + v.own_leaf_index.enc());
                lemma_starts_at_split(data@, pos as int + v.ciphersuite.enc().len() + enc_vec(VecSize::VecU32, v.nodes@).len(), v.path_keypairs.enc(), v.own_leaf_index.enc());
                assert(v.ciphersuite.valid());
                assert(vec_valid(VecSize::VecU32, v.nodes@));
                assert(v.path_keypairs.valid());
                assert(v.own_leaf_index.valid());
                assert(res.nodes.deep_view().len() == res.nodes@.len());
                assert(res.nodes@.len() == v.nodes@.len());
                assert(v.nodes.deep_view() =~= deep_seq(v.nodes@));
            }
        }
        Ok((res, p3))
    }
}

impl DeepView for UpdatePathNode {
    type V = (Seq<u8>, Seq<Seq<u8>>);

    open spec fn deep_view(&self) -> (Seq<u8>, Seq<Seq<u8>>) {
        (self.public_key.deep_view(), self.encrypted_path_secret.deep_view())
    }
}

impl Codec for UpdatePathNode {
    open spec fn valid(&self) -> bool {
        self.public_key.valid() && vec_valid(VecSize::VecU32, self.encrypted_path_secret@)
    }

    open spec fn enc(&self) -> Seq<u8> {
        self.public_key.enc() + enc_vec(VecSize::VecU32, self.encrypted_path_secret@)
    }

    proof fn lemma_enc_nonempty(&self) {
        self.public_key.lemma_enc_nonempty();
    }

    proof fn lemma_enc_prefix_free(&self, other: &Self, s: Seq<u8>, t: Seq<u8>) {
        let s1 = enc_vec(VecSize::VecU32, self.encrypted_path_secret@) + s;
        let t1 = enc_vec(VecSize::VecU32, other.encrypted_path_secret@) + t;
        assert(self.enc() + s =~= self.public_key.enc() + s1);
        assert(other.enc() + t =~= other.public_key.enc() + t1);
        self.public_key.lemma_enc_prefix_free(&other.public_key, s1, t1);
        lemma_cancel(self.public_key.enc(), s1, t1);
        lemma_vec_prefix_free(VecSize::VecU32, self.encrypted_path_secret@, other.encrypted_path_secret@, s, t);
        assert(self.encrypted_path_secret.deep_view() =~= deep_seq(self.encrypted_path_secret@));
        assert(other.encrypted_path_secret.deep_view() =~= deep_seq(other.encrypted_path_secret@));
    }

    fn encode(&self, buffer: &mut Vec<u8>) -> (r: Result<(), CodecError>) {
        let ghost b0 = buffer@;
        let r = self.public_key.encode(buffer);
        if r.is_err() {
            return r;
        }
        let ghost b1 = buffer@;
        let r = encode_vec(VecSize::VecU32, buffer, &self.encrypted_path_secret);
        if r.is_err() {
            proof {
                assert(b1 =~= b0 + b1.subrange(b0.len() as int, b1.len() as int));
                lemma_extends_append(b0, b1.subrange(b0.len() as int, b1.len() as int));
                lemma_extends_trans(b0, b1, buffer@);
            }
            return r;
        }
        assert(buffer@ =~= b0 + self.enc());
        Ok(())
    }

    fn decode(data: &Vec<u8>, pos: usize) -> (r: Result<(Self, usize), CodecError>) {
        let (public_key, p0) = match HpkePublicKey::decode(data, pos) {
            Ok(x) => x,
            Err(e) => {
                assert forall|v: Self| #[trigger] v.valid() && starts_at(data@, pos as int, v.enc()) implies false by {
                    lemma_starts_at_split(data@, pos as int, v.public_key.enc(), enc_vec(VecSize::VecU32, v.encrypted_path_secret@));
                    assert(v.public_key.valid());
                }
                return Err(e);
            },
        };
        let (encrypted_path_secret, p1) = match decode_vec::<HpkeCiphertext>(VecSize::VecU32, data, p0) {
            Ok(x) => x,
            Err(e) => {
                assert forall|v: Self| #[trigger] v.valid() && starts_at(data@, pos as int, v.enc()) implies false by {
                    lemma_starts_at_split(data@, pos as int, v.public_key.enc(), enc_vec(VecSize::VecU32, v.encrypted_path_secret@));
                    assert(v.public_key.valid());
                    assert(vec_valid(VecSize::VecU32, v.encrypted_path_secret@));
                }
                return Err(e);
            },
        };
        let res = UpdatePathNode { public_key, encrypted_path_secret };
        proof {
            lemma_starts_at_split(data@, pos as int, res.public_key.enc(), enc_vec(VecSize::VecU32, res.encrypted_path_secret@));
            assert forall|v: Self| #[trigger] v.valid() && starts_at(data@, pos as int, v.enc()) implies res.deep_view() == v.deep_view() && res.enc() == v.enc() by {
                lemma_starts_at_split(data@, pos as int, v.public_key.enc(), enc_vec(VecSize::VecU32, v.encrypted_path_secret@));
                assert(v.public_key.valid());
                assert(vec_valid(VecSize::VecU32, v.encrypted_path_secret@));
                assert(res.encrypted_path_secret.deep_view().len() == res.encrypted_path_secret@.len());
                assert(res.encrypted_path_secret@.len() == v.encrypted_path_secret@.len());
                assert(v.encrypted_path_secret.deep_view() =~= deep_seq(v.encrypted_path_secret@));
            }
        }
        Ok((res, p1))
    }
}

impl DeepView for UpdatePath {
    type V = (Seq<u8>, Seq<(Seq<u8>, Seq<Seq<u8>>)>);

    open spec fn deep_view(&self) -> (Seq<u8>, Seq<(Seq<u8>, Seq<Seq<u8>>)>) {
        (self.leaf_key_package.deep_view(), self.nodes.deep_view())
    }
}

impl Codec for UpdatePath {
    open spec fn valid(&self) -> bool {
        self.leaf_key_package.valid() && vec_valid(VecSize::VecU16, self.nodes@)
    }

    open spec fn enc(&self) -> Seq<u8> {
        self.leaf_key_package.enc() + enc_vec(VecSize::VecU16, self.nodes@)
    }

    proof fn lemma_enc_nonempty(&self) {
        self.leaf_key_package.lemma_enc_nonempty();
    }

    proof fn lemma_enc_prefix_free(&self, other: &Self, s: Seq<u8>, t: Seq<u8>) {
        let s1 = enc_vec(VecSize::VecU16, self.nodes@) + s;
        let t1 = enc_vec(VecSize::VecU16, other.nodes@) + t;
        assert(self.enc() + s =~= self.leaf_key_package.enc() + s1);
        assert(other.enc() + t =~= other.leaf_key_package.enc() + t1);
        self.leaf_key_package.lemma_enc_prefix_free(&other.leaf_key_package, s1, t1);
        lemma_cancel(self.leaf_key_package.enc(), s1, t1);
        lemma_vec_prefix_free(VecSize::VecU16, self.nodes@, other.nodes@, s, t);
        assert(self.nodes.deep_view() =~= deep_seq(self.nodes@));
        assert(other.nodes.deep_view() =~= deep_seq(other.nodes@));
    }

    fn encode(&self, buffer: &mut Vec<u8>) -> (r: Result<(), CodecError>) {
        let ghost b0 = buffer@;
        let r = self.leaf_key_package.encode(buffer);
        if r.is_err() {
            return r;
        }
        let ghost b1 = buffer@;
        let r = encode_vec(VecSize::VecU16, buffer, &self.nodes);
        if r.is_err() {
            proof {
                assert(b1 =~= b0 + b1.subrange(b0.len() as int, b1.len() as int));
                lemma_extends_append(b0, b1.subrange(b0.len() as int, b1.len() as int));
                lemma_extends_trans(b0, b1, buffer@);
            }
            return r;
        }
        assert(buffer@ =~= b0 + self.enc());
        Ok(())
    }

    fn decode(data: &Vec<u8>, pos: usize) -> (r: Result<(Self, usize), CodecError>) {
        let (leaf_key_package, p0) = match KeyPackage::decode(data, pos) {
            Ok(x) => x,
            Err(e) => {
                assert forall|v: Self| #[trigger] v.valid() && starts_at(data@, pos as int, v.enc()) implies false by {
                    lemma_starts_at_split(data@, pos as int, v.leaf_key_package.enc(), enc_vec(VecSize::VecU16, v.nodes@));
                    assert(v.leaf_key_package.valid());
                }
                return Err(e);
            },
        };
        let (nodes, p1) = match decode_vec::<UpdatePathNode>(VecSize::VecU16, data, p0) {
            Ok(x) => x,
            Err(e) => {
                assert forall|v: Self| #[trigger] v.valid() && starts_at(data@, pos as int, v.enc()) implies false by {
                    lemma_starts_at_split(data@, pos as int, v.leaf_key_package.enc(), enc_vec(VecSize::VecU16, v.nodes@));
                    assert(v.leaf_key_package.valid());
                    assert(vec_valid(VecSize::VecU16, v.nodes@));
                }
                return Err(e);
            },
        };
        let res = UpdatePath { leaf_key_package, nodes };
        proof {
            lemma_starts_at_split(data@, pos as int, res.leaf_key_package.enc(), enc_vec(VecSize::VecU16, res.nodes@));
            assert forall|v: Self| #[trigger] v.valid() && starts_at(data@, pos as int, v.enc()) implies res.deep_view() == v.deep_view() && res.enc() == v.enc() by {
                lemma_starts_at_split(data@, pos as int, v.leaf_key_package.enc(), enc_vec(VecSize::VecU16, v.nodes@));
                assert(v.leaf_key_package.valid());
                assert(vec_valid(VecSize::VecU16, v.nodes@));
                assert(res.nodes.deep_view().len() == res.nodes@.len());
                assert(res.nodes@.len() == v.nodes@.len());
                assert(v.nodes.deep_view() =~= deep_seq(v.nodes@));
            }
        }
        Ok((res, p1))
    }
}

/// The slots form a left-balanced array tree: an odd number of them, leaves
/// (or blanks) at even positions and parents (or blanks) at odd ones.
pub open spec fn layout_ok(nodes: Seq<Node>) -> bool {
    &&& nodes.len() % 2 == 1
    &&& forall|i: int| 0 <= i < nodes.len() && i % 2 == 0 ==> !(#[trigger] nodes[i] is Parent)
    &&& forall|i: int| 0 <= i < nodes.len() && i % 2 == 1 ==> !(#[trigger] nodes[i] is Leaf)
}

/// Every leaf listed as unmerged by a parent names a slot that holds a leaf.
#[verifier::opaque]
pub open spec fn unmerged_ok(nodes: Seq<Node>) -> bool {
    forall|i: int, j: int|
        0 <= i < nodes.len() && nodes[i] is Parent && 0 <= j < nodes[i]->Parent_0.unmerged_leaves@.len() ==> {
            let l = (#[trigger] nodes[i]->Parent_0.unmerged_leaves@[j]) as int;
            2 * l < nodes.len() && nodes[2 * l] is Leaf
        }
}

/// Number of levels above `n` leaves.
fn levels_for(n: u32) -> (r: u32)
    requires
        1 <= n < 2147483648,
    ensures
        r == root_level(n as nat),
        r <= n,
{
    let mut m: u32 = n;
    let mut k: u32 = 0;
    proof {
        lemma_root_level_bound(n as nat);
    }
    while m > 1
        invariant
            1 <= m <= n,
            n < 2147483648,
            k + root_level(m as nat) == root_level(n as nat),
            root_level(n as nat) <= n,
        decreases m,
    {
        m = (m + 1) / 2;
        k += 1;
    }
    k
}

impl RatchetTree {
    /// The shape of the tree: the array layout holds, the leaf count fits in
    /// 32 bits, the own leaf index names a slot that holds a leaf, and every
    /// unmerged leaf names a slot that holds a leaf.
    pub open spec fn shape_wf(&self) -> bool {
        &&& layout_ok(self.nodes@)
        &&& self.nodes@.len() < 4294967295
        &&& self.own_leaf_index < self.spec_leaf_count()
        &&& self.nodes@[2 * self.own_leaf_index as int] is Leaf
        &&& unmerged_ok(self.nodes@)
    }

    /// The tree's invariant: its shape holds and there is one path key pair
    /// per ancestor of the own leaf.
    pub open spec fn wf(&self) -> bool {
        &&& self.shape_wf()
        &&& self.path_keypairs.keypairs@.len() == root_level(self.spec_leaf_count())
    }

    pub open spec fn spec_leaf_count(&self) -> nat {
        ((self.nodes@.len() + 1) / 2) as nat
    }

    /// Whether the tree meets its invariant.
    pub fn is_well_formed(&self) -> (r: bool)
        ensures
            r == self.wf(),
    {
        proof {
            reveal(unmerged_ok);
        }
        let n = self.nodes.len();
        if n % 2 == 0 || n >= 4294967295 || self.own_leaf_index as usize >= (n + 1) / 2 {
            return false;
        }
        match &self.nodes[2 * self.own_leaf_index as usize] {
            Node::Leaf(_) => {},
            _ => {
                return false;
            },
        }
        let mut i: usize = 0;
        while i < n
            invariant
                n == self.nodes@.len(),
                n < 4294967295,
                i <= n,
                forall|j: int| 0 <= j < i && j % 2 == 0 ==> !(#[trigger] self.nodes@[j] is Parent),
                forall|j: int| 0 <= j < i && j % 2 == 1 ==> !(#[trigger] self.nodes@[j] is Leaf),
                forall|a: int, j: int|
                    0 <= a < i && self.nodes@[a] is Parent && 0 <= j < self.nodes@[a]->Parent_0.unmerged_leaves@.len() ==> {
                        let l = (#[trigger] self.nodes@[a]->Parent_0.unmerged_leaves@[j]) as int;
                        2 * l < n && self.nodes@[2 * l] is Leaf
                    },
            decreases n - i,
        {
            match &self.nodes[i] {
                Node::Parent(p) => {
                    if i % 2 == 0 {
                        return false;
                    }
                    let mut j: usize = 0;
                    while j < p.unmerged_leaves.len()
                        invariant
                            n == self.nodes@.len(),
                            n < 4294967295,
                            i < n,
                            self.nodes@[i as int] == Node::Parent(*p),
                            j <= p.unmerged_leaves@.len(),
                            forall|q: int| 0 <= q < j ==> {
                                let l = (#[trigger] p.unmerged_leaves@[q]) as int;
                                2 * l < n && self.nodes@[2 * l] is Leaf
                            },
                        decreases p.unmerged_leaves@.len() - j,
                    {
                        let l = p.unmerged_leaves[j] as usize;
                        let ghost listed = self.nodes@[i as int]->Parent_0.unmerged_leaves@[j as int];
                        assert(listed == l as u32);
                        if l >= (n + 1) / 2 {
                            assert(!unmerged_ok(self.nodes@)) by {
                                reveal(unmerged_ok);
                            }
                            return false;
                        }
                        match &self.nodes[2 * l] {
                            Node::Leaf(_) => {},
                            _ => {
                                assert(!unmerged_ok(self.nodes@)) by {
                                    reveal(unmerged_ok);
                                }
                                return false;
                            },
                        }
                        j += 1;
                    }
                },
                Node::Leaf(_) => {
                    if i % 2 == 1 {
                        return false;
                    }
                },
                Node::Empty => {},
            }
            i += 1;
        }
        proof {
            reveal(unmerged_ok);
        }
        let levels = levels_for(((n + 1) / 2) as u32);
        self.path_keypairs.keypairs.len() == levels as usize
    }

    /// Number of slots.
    pub fn node_count(&self) -> (r: usize)
        ensures
            r == self.nodes@.len(),
    {
        self.nodes.len()
    }

    /// Number of leaf slots, blank or not.
    pub fn leaf_count(&self) -> (r: u32)
        requires
            self.shape_wf(),
        ensures
            r == self.spec_leaf_count(),
    {
        ((self.nodes.len() + 1) / 2) as u32
    }
}

/// In a well-formed tree the slot count is twice the leaf count less one, and
/// there is at least one leaf.
pub proof fn lemma_tree_size(t: &RatchetTree)
    requires
        t.shape_wf(),
    ensures
        t.nodes@.len() == 2 * t.spec_leaf_count() - 1,
        t.spec_leaf_count() >= 1,
{
}

/// Bound on `x + 2^level` for the nodes whose resolution is computed, so that
/// all index arithmetic fits in 64 bits.
pub const INDEX_BOUND: u64 = 0x100_0000_0000;

/// The node indices of the leaves listed as unmerged.
pub open spec fn unmerged_nodes(leaves: Seq<u32>) -> Seq<u64> {
    leaves.map_values(|l: u32| (2 * l) as u64)
}

/// The resolution of node `x` at level `k` (its subtree spans `2^k - 1`
/// positions on either side): a non-blank node resolves to itself followed by
/// its unmerged leaves; a blank leaf to nothing; a blank parent to its left
/// child's resolution followed by its right child's. Positions beyond the
/// array are blank.
pub open spec fn resolution(nodes: Seq<Node>, x: int, k: nat) -> Seq<u64>
    decreases k,
{
    if 0 <= x < nodes.len() && nodes[x] is Leaf {
        seq![x as u64]
    } else if 0 <= x < nodes.len() && nodes[x] is Parent {
        seq![x as u64] + unmerged_nodes(nodes[x]->Parent_0.unmerged_leaves@)
    } else if k == 0 {
        Seq::empty()
    } else {
        resolution(nodes, x - pow2((k - 1) as nat), (k - 1) as nat) + resolution(nodes, x + pow2((k - 1) as nat), (k - 1) as nat)
    }
}

/// Node `x` sits at level `k` of the array tree.
pub open spec fn at_level(x: int, k: nat) -> bool {
    x >= 0 && x % (pow2(k + 1) as int) == pow2(k) - 1
}

/// Number of levels above the leaves for `n` leaves: the least `k` with
/// `2^k >= n`.
pub open spec fn root_level(n: nat) -> nat
    decreases n,
{
    if n <= 1 {
        0
    } else {
        1 + root_level(((n + 1) / 2) as nat)
    }
}

proof fn lemma_root_level_bound(n: nat)
    requires
        n >= 1,
    ensures
        pow2(root_level(n)) <= 2 * n,
        n >= 2 ==> pow2(root_level(n)) <= 2 * n - 2,
        root_level(n) <= n,
    decreases n,
{
    vstd::arithmetic::power2::lemma2_to64();
    if n > 1 {
        let m = ((n + 1) / 2) as nat;
        lemma_root_level_bound(m);
        lemma_pow2_unfold(root_level(n));
        assert((root_level(n) - 1) as nat == root_level(m));
    }
}

/// A subtree whose slots are all blank contributes nothing to a resolution.
pub proof fn lemma_blank_subtree_resolves_empty(nodes: Seq<Node>, x: int, k: nat)
    requires
        forall|i: int| x - pow2(k) < i < x + pow2(k) && 0 <= i < nodes.len() ==> (#[trigger] nodes[i]) is Empty,
    ensures
        resolution(nodes, x, k) == Seq::<u64>::empty(),
    decreases k,
{
    vstd::arithmetic::power2::lemma2_to64();
    if k > 0 {
        lemma_pow2_unfold(k);
        let h = pow2((k - 1) as nat);
        lemma_blank_subtree_resolves_empty(nodes, x - h, (k - 1) as nat);
        lemma_blank_subtree_resolves_empty(nodes, x + h, (k - 1) as nat);
        assert(resolution(nodes, x, k) =~= Seq::<u64>::empty());
    }
}

/// Resolutions never include a blank slot: when every unmerged leaf names a
/// leaf slot, each slot a resolution lists lies in the array and is not blank.
pub proof fn lemma_resolution_not_blank(nodes: Seq<Node>, x: int, k: nat)
    requires
        unmerged_ok(nodes),
        nodes.len() < 4294967295,
    ensures
        forall|j: int| 0 <= j < resolution(nodes, x, k).len() ==> {
            let y = (#[trigger] resolution(nodes, x, k)[j]) as int;
            0 <= y < nodes.len() && !(nodes[y] is Empty)
        },
    decreases k,
{
    reveal(unmerged_ok);
    let r = resolution(nodes, x, k);
    if 0 <= x < nodes.len() && nodes[x] is Leaf {
    } else if 0 <= x < nodes.len() && nodes[x] is Parent {
        let ul = nodes[x]->Parent_0.unmerged_leaves@;
        assert forall|j: int| 0 <= j < r.len() implies {
            let y = (#[trigger] r[j]) as int;
            0 <= y < nodes.len() && !(nodes[y] is Empty)
        } by {
            if j > 0 {
                assert(r[j] == unmerged_nodes(ul)[j - 1]);
                let l = ul[j - 1];
                assert(2 * (l as int) < nodes.len() && nodes[2 * l as int] is Leaf);
            }
        }
    } else if k > 0 {
        let h = pow2((k - 1) as nat) as int;
        lemma_resolution_not_blank(nodes, x - h, (k - 1) as nat);
        lemma_resolution_not_blank(nodes, x + h, (k - 1) as nat);
        let a = resolution(nodes, x - h, (k - 1) as nat);
        let b = resolution(nodes, x + h, (k - 1) as nat);
        assert forall|j: int| 0 <= j < r.len() implies {
            let y = (#[trigger] r[j]) as int;
            0 <= y < nodes.len() && !(nodes[y] is Empty)
        } by {
            if j < a.len() {
                assert(r[j] == a[j]);
            } else {
                assert(r[j] == b[j - a.len()]);
            }
        }
    }
}

fn push_resolution(nodes: &Vec<Node>, x: u64, k: u32, w: u64, out: &mut Vec<u64>)
    requires
        w == pow2(k as nat),
        x + 1 >= w,
        x + w <= INDEX_BOUND,
    ensures
        final(out)@ == old(out)@ + resolution(nodes@, x as int, k as nat),
    decreases k,
{
    if x < nodes.len() as u64 {
        match &nodes[x as usize] {
            Node::Leaf(_) => {
                out.push(x);
                return;
            },
            Node::Parent(p) => {
                out.push(x);
                let ghost start = out@;
                let mut i: usize = 0;
                while i < p.unmerged_leaves.len()
                    invariant
                        i <= p.unmerged_leaves@.len(),
                        out@ == start + unmerged_nodes(p.unmerged_leaves@).take(i as int),
                    decreases p.unmerged_leaves@.len() - i,
                {
                    out.push(2 * (p.unmerged_leaves[i] as u64));
                    assert(unmerged_nodes(p.unmerged_leaves@).take(i + 1) =~= unmerged_nodes(p.unmerged_leaves@).take(i as int).push((2 * p.unmerged_leaves@[i as int]) as u64));
                    i += 1;
                }
                assert(unmerged_nodes(p.unmerged_leaves@).take(i as int) =~= unmerged_nodes(p.unmerged_leaves@));
                assert(out@ =~= old(out)@ + resolution(nodes@, x as int, k as nat));
                return;
            },
            Node::Empty => {},
        }
    }
    if k == 0 {
        assert(out@ =~= old(out)@ + resolution(nodes@, x as int, k as nat));
        return;
    }
    proof {
        lemma_pow2_unfold(k as nat);
        lemma_pow2_pos((k - 1) as nat);
    }
    let h = w / 2;
    let ghost mid = out@;
    push_resolution(nodes, x - h, k - 1, h, out);
    let ghost after_left = out@;
    push_resolution(nodes, x + h, k - 1, h, out);
    assert(out@ =~= old(out)@ + resolution(nodes@, x as int, k as nat));
}

impl RatchetTree {
    /// The resolution of node `x`, which sits at level `level`.
    pub fn resolution(&self, x: u64, level: u32) -> (r: Vec<u64>)
        requires
            level < 40,
            at_level(x as int, level as nat),
            x + pow2(level as nat) <= INDEX_BOUND,
        ensures
            r@ == resolution(self.nodes@, x as int, level as nat),
            self.shape_wf() ==> forall|j: int| 0 <= j < r@.len() ==> (#[trigger] r@[j]) < self.nodes@.len()
                && !(self.nodes@[r@[j] as int] is Empty),
    {
        let mut w: u64 = 1;
        let mut i: u32 = 0;
        proof {
            vstd::arithmetic::power2::lemma2_to64();
            if level > 0 {
                vstd::arithmetic::power2::lemma_pow2_strictly_increases(0, level as nat);
            }
            lemma_pow2_pos((level + 1) as nat);
            let m = pow2((level + 1) as nat) as int;
            assert(x as int >= (x as int) % m) by {
                if (x as int) < m {
                    vstd::arithmetic::div_mod::lemma_small_mod(x as nat, m as nat);
                } else {
                    vstd::arithmetic::div_mod::lemma_mod_pos_bound(x as int, m);
                }
            }
        }
        while i < level
            invariant
                i <= level,
                level < 40,
                w == pow2(i as nat),
                w <= pow2(level as nat),
                x + pow2(level as nat) <= INDEX_BOUND,
            decreases level - i,
        {
            proof {
                lemma_pow2_unfold((i + 1) as nat);
                if i + 1 < level {
                    vstd::arithmetic::power2::lemma_pow2_strictly_increases((i + 1) as nat, level as nat);
                }
            }
            w = w * 2;
            i += 1;
        }
        proof {
            lemma_pow2_unfold((level + 1) as nat);
            lemma_pow2_pos(level as nat);
        }
        let mut out: Vec<u64> = Vec::new();
        push_resolution(&self.nodes, x, level, w, &mut out);
        assert(out@ =~= resolution(self.nodes@, x as int, level as nat));
        proof {
            if self.shape_wf() {
                lemma_resolution_not_blank(self.nodes@, x as int, level as nat);
            }
        }
        out
    }

    /// The resolution of the root.
    pub fn root_resolution(&self) -> (r: Vec<u64>)
        requires
            self.shape_wf(),
        ensures
            r@ == resolution(self.nodes@, pow2(root_level(self.spec_leaf_count())) - 1, root_level(self.spec_leaf_count())),
            forall|j: int| 0 <= j < r@.len() ==> (#[trigger] r@[j]) < self.nodes@.len() && !(self.nodes@[r@[j] as int] is Empty),
    {
        let n = self.leaf_count();
        let mut m: u32 = n;
        let mut k: u32 = 0;
        let mut w: u64 = 1;
        proof {
            vstd::arithmetic::power2::lemma2_to64();
            lemma_root_level_bound(n as nat);
        }
        while m > 1
            invariant
                1 <= m <= n,
                n == self.spec_leaf_count(),
                n < 2147483648,
                k + root_level(m as nat) == root_level(n as nat),
                w == pow2(k as nat),
                pow2(root_level(n as nat)) <= 2 * n,
            decreases m,
        {
            proof {
                lemma_pow2_unfold((k + 1) as nat);
                lemma_root_level_bound(n as nat);
                assert(root_level(m as nat) >= 1);
                if k + 1 < root_level(n as nat) {
                    vstd::arithmetic::power2::lemma_pow2_strictly_increases((k + 1) as nat, root_level(n as nat));
                }
            }
            m = (m + 1) / 2;
            k += 1;
            w = w * 2;
        }
        proof {
            lemma_pow2_unfold((k + 1) as nat);
            lemma_pow2_pos(k as nat);
        }
        let mut out: Vec<u64> = Vec::new();
        push_resolution(&self.nodes, w - 1, k, w, &mut out);
        assert(out@ =~= resolution(self.nodes@, pow2(root_level(self.spec_leaf_count())) - 1, root_level(self.spec_leaf_count())));
        proof {
            lemma_resolution_not_blank(self.nodes@, (w - 1) as int, k as nat);
        }
        out
    }
}

/// Level of slot `y` in the array tree: the number of trailing one bits of
/// its index. Leaves are at level 0.
pub open spec fn level(y: nat) -> nat
    decreases y,
{
    if y % 2 == 0 {
        0
    } else {
        1 + level(y / 2)
    }
}

/// Slot `y` is a parent whose subtree holds slot `x`: a node at level `k`
/// spans the `2^k - 1` positions on each side of it.
pub open spec fn is_ancestor(y: int, x: int) -> bool {
    &&& y >= 0
    &&& level(y as nat) > 0
    &&& y - pow2(level(y as nat)) < x < y + pow2(level(y as nat))
}

/// The half of `y`'s subtree that does not hold `x` is blank, as far as it
/// lies within the array.
pub open spec fn other_side_blank(nodes: Seq<Node>, y: int, x: int) -> bool {
    let w = pow2(level(y as nat));
    if x < y {
        forall|i: int| y < i < y + w && i < nodes.len() ==> (#[trigger] nodes[i]) is Empty
    } else {
        forall|i: int| y - w < i < y && 0 <= i ==> (#[trigger] nodes[i]) is Empty
    }
}

/// Removing the member at slot `x` blanks slot `i`: the leaf itself, and each
/// ancestor whose other child's subtree is blank.
pub open spec fn blanked_by_remove(nodes: Seq<Node>, x: int, i: int) -> bool {
    i == x || (is_ancestor(i, x) && other_side_blank(nodes, i, x))
}

/// Whether all slots from `lo` up to, not including, `hi` that lie in the
/// array are blank.
fn span_blank(nodes: &Vec<Node>, lo: u64, hi: u64) -> (r: bool)
    requires
        lo <= hi,
    ensures
        r == (forall|i: int| lo <= i < hi && 0 <= i < nodes@.len() ==> (#[trigger] nodes@[i]) is Empty),
{
    let mut i: u64 = lo;
    while i < hi && i < nodes.len() as u64
        invariant
            lo <= i <= hi,
            forall|j: int| lo <= j < i && 0 <= j < nodes@.len() ==> (#[trigger] nodes@[j]) is Empty,
        decreases hi - i,
    {
        match &nodes[i as usize] {
            Node::Empty => {},
            _ => {
                return false;
            },
        }
        i += 1;
    }
    true
}

fn blank_on_remove(nodes: &Vec<Node>, x: u64, i: u64) -> (r: bool)
    requires
        i < nodes@.len(),
        nodes@.len() < 4294967295,
        x < INDEX_BOUND,
    ensures
        r == blanked_by_remove(nodes@, x as int, i as int),
{
    if i == x {
        return true;
    }
    let mut y: u64 = i;
    let mut k: u64 = 0;
    let mut w: u64 = 1;
    proof {
        vstd::arithmetic::power2::lemma2_to64();
    }
    while y % 2 == 1
        invariant
            level(i as nat) == k + level(y as nat),
            w == pow2(k as nat),
            i + 1 == (y + 1) * w,
            1 <= w <= i + 1,
            i < 4294967295,
            k <= w,
        decreases y,
    {
        proof {
            lemma_pow2_unfold((k + 1) as nat);
            assert(i + 1 == (y / 2 + 1) * (2 * w)) by (nonlinear_arith)
                requires
                    i + 1 == (y + 1) * w,
                    y % 2 == 1,
            ;
            assert((y / 2 + 1) * (2 * w) >= 2 * w) by (nonlinear_arith)
                requires
                    w > 0,
            ;
        }
        y = y / 2;
        k += 1;
        w = w * 2;
    }
    assert(level(y as nat) == 0);
    if k == 0 {
        return false;
    }
    if !(x + w > i && x < i + w) {
        return false;
    }
    if x < i {
        span_blank(nodes, i + 1, i + w)
    } else {
        span_blank(nodes, i + 1 - w, i)
    }
}

/// `s` with every occurrence of `l` left out, order kept.
pub open spec fn without(s: Seq<u32>, l: u32) -> Seq<u32>
    decreases s.len(),
{
    if s.len() == 0 {
        s
    } else if s.last() == l {
        without(s.drop_last(), l)
    } else {
        without(s.drop_last(), l).push(s.last())
    }
}

proof fn lemma_without_members(s: Seq<u32>, l: u32)
    ensures
        forall|j: int| 0 <= j < without(s, l).len() ==> #[trigger] without(s, l)[j] != l && s.contains(without(s, l)[j]),
    decreases s.len(),
{
    if s.len() > 0 {
        let t = s.drop_last();
        lemma_without_members(t, l);
        assert forall|j: int| 0 <= j < without(s, l).len() implies #[trigger] without(s, l)[j] != l && s.contains(without(s, l)[j]) by {
            if j < without(t, l).len() {
                let k = choose|k: int| 0 <= k < t.len() && t[k] == without(t, l)[j];
                assert(s[k] == t[k]);
            } else {
                assert(s[s.len() - 1] == s.last());
            }
        }
    }
}

fn drop_leaf(v: &Vec<u32>, l: u32) -> (r: Vec<u32>)
    ensures
        r@ == without(v@, l),
{
    let mut out: Vec<u32> = Vec::new();
    let mut i: usize = 0;
    while i < v.len()
        invariant
            i <= v@.len(),
            out@ == without(v@.take(i as int), l),
        decreases v@.len() - i,
    {
        assert(v@.take(i + 1).drop_last() =~= v@.take(i as int));
        if v[i] != l {
            out.push(v[i]);
        }
        i += 1;
    }
    assert(v@.take(i as int) =~= v@);
    out
}

/// What removing the member at leaf `l` (slot `x`) makes of slot `i`: blanked
/// if `blanked_by_remove` says so; otherwise a parent keeps its key and drops
/// `l` from its unmerged leaves, and any other slot is unchanged.
pub open spec fn removed_at(before: Seq<Node>, after: Seq<Node>, x: int, l: u32, i: int) -> bool {
    if blanked_by_remove(before, x, i) {
        after[i] == Node::Empty
    } else if before[i] is Parent {
        &&& after[i] is Parent
        &&& after[i]->Parent_0.public_key == before[i]->Parent_0.public_key
        &&& after[i]->Parent_0.unmerged_leaves@ == without(before[i]->Parent_0.unmerged_leaves@, l)
    } else {
        after[i] == before[i]
    }
}

impl RatchetTree {
    /// Removes the member at leaf `leaf_index`, which is not the local
    /// member's own leaf: blanks its leaf and every ancestor whose other
    /// child's subtree is blank, and drops it from every parent's unmerged
    /// leaves. The tree is not re-keyed.
    pub fn apply_remove(&mut self, leaf_index: u32)
        requires
            old(self).wf(),
            leaf_index < old(self).spec_leaf_count(),
            leaf_index != old(self).own_leaf_index,
        ensures
            final(self).wf(),
            final(self).ciphersuite == old(self).ciphersuite,
            final(self).path_keypairs == old(self).path_keypairs,
            final(self).own_leaf_index == old(self).own_leaf_index,
            final(self).nodes@.len() == old(self).nodes@.len(),
            forall|i: int| 0 <= i < old(self).nodes@.len() ==> #[trigger] removed_at(
                old(self).nodes@,
                final(self).nodes@,
                2 * leaf_index,
                leaf_index,
                i,
            ),
    {
        let x: u64 = 2 * leaf_index as u64;
        let n = self.nodes.len();
        let mut marks: Vec<bool> = Vec::new();
        let mut i: usize = 0;
        while i < n
            invariant
                n == self.nodes@.len(),
                self.wf(),
                i <= n,
                marks@.len() == i,
                x < INDEX_BOUND,
                forall|j: int| 0 <= j < i ==> marks@[j] == blanked_by_remove(self.nodes@, x as int, j),
            decreases n - i,
        {
            let b = blank_on_remove(&self.nodes, x, i as u64);
            marks.push(b);
            i += 1;
        }
        let ghost before = self.nodes@;
        let mut i: usize = 0;
        while i < n
            invariant
                n == self.nodes@.len(),
                n == before.len(),
                marks@.len() == n,
                i <= n,
                forall|j: int| 0 <= j < n ==> marks@[j] == blanked_by_remove(before, x as int, j),
                forall|j: int| 0 <= j < i ==> #[trigger] removed_at(before, self.nodes@, x as int, leaf_index, j),
                forall|j: int| i <= j < n ==> #[trigger] self.nodes@[j] == before[j],
                self.ciphersuite == old(self).ciphersuite,
                self.path_keypairs == old(self).path_keypairs,
                self.own_leaf_index == old(self).own_leaf_index,
                before == old(self).nodes@,
            decreases n - i,
        {
            let ghost prev = self.nodes@;
            if marks[i] {
                self.nodes.set(i, Node::Empty);
            } else {
                let is_parent = match &self.nodes[i] {
                    Node::Parent(_) => true,
                    _ => false,
                };
                if is_parent {
                    let node = self.nodes.remove(i);
                    let node = match node {
                        Node::Parent(p) => {
                            let kept = drop_leaf(&p.unmerged_leaves, leaf_index);
                            Node::Parent(ParentNode { public_key: p.public_key, unmerged_leaves: kept })
                        },
                        other => other,
                    };
                    self.nodes.insert(i, node);
                    assert(self.nodes@ =~= prev.update(i as int, node));
                }
            }
            assert forall|j: int| 0 <= j < i + 1 implies #[trigger] removed_at(before, self.nodes@, x as int, leaf_index, j) by {
                if j < i {
                    assert(removed_at(before, prev, x as int, leaf_index, j));
                    assert(self.nodes@[j] == prev[j]);
                }
            }
            i += 1;
        }
        let ghost after = self.nodes@;
        proof {
            reveal(unmerged_ok);
            let own = 2 * self.own_leaf_index as int;
            assert(removed_at(before, after, x as int, leaf_index, own));
            assert forall|j: int| 0 <= j < n && j % 2 == 0 implies !(#[trigger] after[j] is Parent) by {
                assert(removed_at(before, after, x as int, leaf_index, j));
                assert(!(before[j] is Parent));
            }
            assert forall|j: int| 0 <= j < n && j % 2 == 1 implies !(#[trigger] after[j] is Leaf) by {
                assert(removed_at(before, after, x as int, leaf_index, j));
                assert(!(before[j] is Leaf));
            }
            assert forall|a: int, j: int|
                0 <= a < n && after[a] is Parent && 0 <= j < after[a]->Parent_0.unmerged_leaves@.len() implies {
                    let l = (#[trigger] after[a]->Parent_0.unmerged_leaves@[j]) as int;
                    2 * l < n && after[2 * l] is Leaf
                } by {
                assert(removed_at(before, after, x as int, leaf_index, a));
                let bl = before[a]->Parent_0.unmerged_leaves@;
                lemma_without_members(bl, leaf_index);
                let v = after[a]->Parent_0.unmerged_leaves@[j];
                let k = choose|k: int| 0 <= k < bl.len() && bl[k] == v;
                assert(bl[k] == v);
                assert(removed_at(before, after, x as int, leaf_index, 2 * v as int));
            }
        }
    }
}

/// The first blank leaf slot, as a leaf index, if any.
pub open spec fn first_blank_leaf(nodes: Seq<Node>) -> Option<nat> {
    if exists|l: nat| 2 * l < nodes.len() && (#[trigger] nodes[2 * l as int]) is Empty {
        Some(choose|l: nat| 2 * l < nodes.len() && (#[trigger] nodes[2 * l as int]) is Empty
            && forall|m: nat| m < l ==> !(#[trigger] nodes[2 * m as int] is Empty))
    } else {
        None
    }
}

/// `nodes` after adding `l` as unmerged on each non-blank ancestor of slot `x`
/// other than `x` itself, slot by slot.
pub open spec fn marked_unmerged(before: Seq<Node>, after: Seq<Node>, x: int, l: u32, q: int) -> bool {
    let e = before[q];
    let nn = after[q];
    if q != x && is_ancestor(q, x) && e is Parent {
        &&& nn is Parent
        &&& nn->Parent_0.public_key == e->Parent_0.public_key
        &&& nn->Parent_0.unmerged_leaves@ == e->Parent_0.unmerged_leaves@.push(l)
    } else {
        nn == e
    }
}

proof fn lemma_add_keeps_shape(
    o: Seq<Node>,
    placed: Seq<Node>,
    fin: Seq<Node>,
    x: int,
    leaf: u32,
    own: int,
    kp: KeyPackage,
)
    requires
        layout_ok(o),
        unmerged_ok(o),
        0 <= own < o.len(),
        own % 2 == 0,
        o[own] is Leaf,
        x == 2 * leaf,
        0 <= x < placed.len(),
        x >= o.len() || o[x] is Empty,
        placed.len() % 2 == 1,
        o.len() <= placed.len(),
        fin.len() == placed.len(),
        placed[x] == Node::Leaf(kp),
        forall|i: int| 0 <= i < o.len() && i != x ==> placed[i] == o[i],
        forall|i: int| o.len() <= i < placed.len() && i != x ==> (#[trigger] placed[i]) is Empty,
        forall|q: int| 0 <= q < placed.len() ==> #[trigger] marked_unmerged(placed, fin, x, leaf, q),
    ensures
        layout_ok(fin),
        fin[own] is Leaf,
        fin[x] == Node::Leaf(kp),
        unmerged_ok(fin),
{
    reveal(unmerged_ok);
    assert(marked_unmerged(placed, fin, x, leaf, x));
    assert(marked_unmerged(placed, fin, x, leaf, own));
    assert forall|q: int| 0 <= q < fin.len() && q % 2 == 0 implies !(#[trigger] fin[q] is Parent) by {
        assert(marked_unmerged(placed, fin, x, leaf, q));
        if q != x && q < o.len() {
            assert(!(o[q] is Parent));
        }
    }
    assert forall|q: int| 0 <= q < fin.len() && q % 2 == 1 implies !(#[trigger] fin[q] is Leaf) by {
        assert(marked_unmerged(placed, fin, x, leaf, q));
        if q < o.len() {
            assert(!(o[q] is Leaf));
        }
    }
    assert forall|a: int, j: int|
        0 <= a < fin.len() && fin[a] is Parent && 0 <= j < fin[a]->Parent_0.unmerged_leaves@.len() implies {
            let l = (#[trigger] fin[a]->Parent_0.unmerged_leaves@[j]) as int;
            2 * l < fin.len() && fin[2 * l] is Leaf
        } by {
        assert(marked_unmerged(placed, fin, x, leaf, a));
        assert(a < o.len() && o[a] is Parent);
        let l = fin[a]->Parent_0.unmerged_leaves@[j] as int;
        if j < o[a]->Parent_0.unmerged_leaves@.len() {
            assert(o[a]->Parent_0.unmerged_leaves@[j] as int == l);
            assert(2 * l < o.len() && o[2 * l] is Leaf);
            assert(marked_unmerged(placed, fin, x, leaf, 2 * l));
        } else {
            assert(l == leaf);
        }
    }
}

fn find_blank_leaf(nodes: &Vec<Node>) -> (r: Option<usize>)
    requires
        nodes@.len() < 4294967295,
    ensures
        r matches Some(l) ==> first_blank_leaf(nodes@) == Some(l as nat) && 2 * l < nodes@.len() && nodes@[2 * l as int] is Empty,
        r is None ==> first_blank_leaf(nodes@) is None,
{
    let n = nodes.len();
    let mut j: usize = 0;
    while j < n
        invariant
            n == nodes@.len(),
            n < 4294967295,
            j <= n + 1,
            j % 2 == 0,
            forall|m: nat| 2 * m < j ==> !(#[trigger] nodes@[2 * m as int] is Empty),
        decreases n + 2 - j,
    {
        if let Node::Empty = &nodes[j] {
            let ghost o = nodes@;
            let ghost w = (j / 2) as nat;
            proof {
                assert(o[2 * w as int] is Empty);
                let c = choose|l: nat| 2 * l < o.len() && (#[trigger] o[2 * l as int]) is Empty
                    && forall|m: nat| m < l ==> !(#[trigger] o[2 * m as int] is Empty);
                assert(2 * w < o.len() && o[2 * w as int] is Empty
                    && forall|m: nat| m < w ==> !(#[trigger] o[2 * m as int] is Empty));
                if c < w {
                    assert(!(o[2 * c as int] is Empty));
                } else if c > w {
                    assert(!(o[2 * w as int] is Empty));
                }
            }
            return Some(j / 2);
        }
        proof {
            assert forall|m: nat| 2 * m < j + 2 implies !(#[trigger] nodes@[2 * m as int] is Empty) by {
                if 2 * m == j {
                }
            }
        }
        if n - j < 2 {
            j = n + 1;
        } else {
            j += 2;
        }
    }
    proof {
        let o = nodes@;
        if exists|l: nat| 2 * l < o.len() && (#[trigger] o[2 * l as int]) is Empty {
            let l = choose|l: nat| 2 * l < o.len() && (#[trigger] o[2 * l as int]) is Empty;
            assert(!(o[2 * l as int] is Empty));
        }
    }
    None
}

fn mark_unmerged(nodes: &mut Vec<Node>, x: u64, leaf: u32)
    requires
        old(nodes)@.len() < 4294967295,
        x < INDEX_BOUND,
    ensures
        final(nodes)@.len() == old(nodes)@.len(),
        forall|q: int| 0 <= q < old(nodes)@.len() ==> #[trigger] marked_unmerged(old(nodes)@, final(nodes)@, x as int, leaf, q),
{
    let total = nodes.len();
    let ghost ext = nodes@;
    let mut i: usize = 0;
    while i < total
        invariant
            total == nodes@.len(),
            total == ext.len(),
            total < 4294967295,
            x < INDEX_BOUND,
            forall|q: int| i <= q < total ==> #[trigger] nodes@[q] == ext[q],
            forall|q: int| 0 <= q < i ==> #[trigger] marked_unmerged(ext, nodes@, x as int, leaf, q),
        decreases total - i,
    {
        let ghost prev = nodes@;
        if i as u64 != x && is_ancestor_exec(x, i as u64) {
            let ghost before = nodes@;
            let node = nodes.remove(i);
            let node = match node {
                Node::Parent(p) => {
                    let mut p = p;
                    p.unmerged_leaves.push(leaf);
                    Node::Parent(p)
                },
                other => other,
            };
            nodes.insert(i, node);
            assert(nodes@ =~= before.update(i as int, node));
        }
        assert forall|q: int| 0 <= q < i + 1 implies #[trigger] marked_unmerged(ext, nodes@, x as int, leaf, q) by {
            if q < i {
                assert(marked_unmerged(ext, prev, x as int, leaf, q));
                assert(nodes@[q] == prev[q]);
            }
        }
        i += 1;
    }
}

impl RatchetTree {
    /// Adds a member: takes the first blank leaf, or doubles the tree when no
    /// leaf is blank, stores `key_package` there and marks the new leaf as
    /// unmerged on every non-blank ancestor. Returns the new leaf's index.
    /// Doubling adds a level above the own leaf, which has no path key pair
    /// until the own path is derived anew; otherwise the invariant is kept.
    pub fn apply_add(&mut self, key_package: KeyPackage) -> (r: u32)
        requires
            old(self).shape_wf(),
            old(self).nodes@.len() < 0x7fff_ffff,
        ensures
            final(self).shape_wf(),
            old(self).wf() && first_blank_leaf(old(self).nodes@) is Some ==> final(self).wf(),
            final(self).ciphersuite == old(self).ciphersuite,
            final(self).path_keypairs == old(self).path_keypairs,
            final(self).own_leaf_index == old(self).own_leaf_index,
            match first_blank_leaf(old(self).nodes@) {
                Some(l) => r == l && final(self).nodes@.len() == old(self).nodes@.len(),
                None => r == old(self).spec_leaf_count() && final(self).nodes@.len() == 2 * old(self).nodes@.len() + 1,
            },
            final(self).nodes@[2 * r as int] == Node::Leaf(key_package),
            forall|i: int| 0 <= i < final(self).nodes@.len() && i != 2 * r ==> {
                let o = old(self).nodes@;
                let n = #[trigger] final(self).nodes@[i];
                if i < o.len() && is_ancestor(i, 2 * r as int) && o[i] is Parent {
                    &&& n is Parent
                    &&& n->Parent_0.public_key == o[i]->Parent_0.public_key
                    &&& n->Parent_0.unmerged_leaves@ == o[i]->Parent_0.unmerged_leaves@.push(r)
                } else if i < o.len() {
                    n == o[i]
                } else {
                    n == Node::Empty
                }
            },
    {
        let ghost o = self.nodes@;
        let n = self.nodes.len();
        let leaf: usize = match find_blank_leaf(&self.nodes) {
            Some(l) => l,
            None => {
                let mut k: usize = 0;
                while k < n + 1
                    invariant
                        k <= n + 1,
                        n == o.len(),
                        n < 0x7fff_ffff,
                        self.nodes@.len() == n + k,
                        self.ciphersuite == old(self).ciphersuite,
                        self.path_keypairs == old(self).path_keypairs,
                        self.own_leaf_index == old(self).own_leaf_index,
                        o == old(self).nodes@,
                        forall|i: int| 0 <= i < n ==> #[trigger] self.nodes@[i] == o[i],
                        forall|i: int| n <= i < n + k ==> #[trigger] self.nodes@[i] == Node::Empty,
                    decreases n + 1 - k,
                {
                    self.nodes.push(Node::Empty);
                    k += 1;
                }
                (n + 1) / 2
            },
        };
        assert(2 * leaf >= o.len() || o[2 * leaf as int] is Empty);
        let ghost ext = self.nodes@;
        self.nodes.set(2 * leaf, Node::Leaf(key_package));
        let ghost placed = self.nodes@;
        let x: u64 = 2 * leaf as u64;
        mark_unmerged(&mut self.nodes, x, leaf as u32);
        proof {
            assert forall|i: int| 0 <= i < o.len() && i != x implies placed[i] == o[i] by {
                assert(ext[i] == o[i]);
            }
            assert forall|i: int| o.len() <= i < placed.len() && i != x implies (#[trigger] placed[i]) is Empty by {
                assert(ext[i] == Node::Empty);
            }
            lemma_add_keeps_shape(o, placed, self.nodes@, x as int, leaf as u32, 2 * self.own_leaf_index as int, key_package);
            if first_blank_leaf(o) is Some {
                assert(self.spec_leaf_count() == old(self).spec_leaf_count());
            }
            let fin = self.nodes@;
            let l = leaf as u32;
            assert forall|i: int| 0 <= i < fin.len() && i != 2 * l implies {
                let n = #[trigger] fin[i];
                if i < o.len() && is_ancestor(i, 2 * l as int) && o[i] is Parent {
                    &&& n is Parent
                    &&& n->Parent_0.public_key == o[i]->Parent_0.public_key
                    &&& n->Parent_0.unmerged_leaves@ == o[i]->Parent_0.unmerged_leaves@.push(l)
                } else if i < o.len() {
                    n == o[i]
                } else {
                    n == Node::Empty
                }
            } by {
                assert(marked_unmerged(placed, fin, x as int, l, i));
                if i < o.len() {
                    assert(placed[i] == o[i]);
                } else {
                    assert(placed[i] is Empty);
                }
            }
        }
        leaf as u32
    }
}

/// Whether slot `y` is an ancestor of slot `x`.
fn is_ancestor_exec(x: u64, y: u64) -> (r: bool)
    requires
        y < 4294967295,
        x < INDEX_BOUND,
    ensures
        r == is_ancestor(y as int, x as int),
{
    let mut z: u64 = y;
    let mut k: u64 = 0;
    let mut w: u64 = 1;
    proof {
        vstd::arithmetic::power2::lemma2_to64();
    }
    while z % 2 == 1
        invariant
            level(y as nat) == k + level(z as nat),
            w == pow2(k as nat),
            y + 1 == (z + 1) * w,
            1 <= w <= y + 1,
            y < 4294967295,
            k <= w,
        decreases z,
    {
        proof {
            lemma_pow2_unfold((k + 1) as nat);
            assert(y + 1 == (z / 2 + 1) * (2 * w)) by (nonlinear_arith)
                requires
                    y + 1 == (z + 1) * w,
                    z % 2 == 1,
            ;
            assert((z / 2 + 1) * (2 * w) >= 2 * w) by (nonlinear_arith)
                requires
                    w > 0,
            ;
        }
        z = z / 2;
        k += 1;
        w = w * 2;
    }
    assert(level(z as nat) == 0);
    k > 0 && x + w > y && x < y + w
}

/// Integrity failures of an update path against the tree it is applied to.
#[derive(Clone, Copy, Debug, PartialEq, Eq, Structural)]
pub enum TreeError {
    /// The path has not one entry per level of the tree.
    PathLengthMismatch,
    /// An entry does not hold one ciphertext per member of the resolution it
    /// is meant for.
    CiphertextCountMismatch,
}

/// The ancestor at level `k` of slot `x`.
pub open spec fn ancestor_at(x: int, k: nat) -> int {
    (x / (2 * pow2(k) as int)) * (2 * pow2(k) as int) + pow2(k) - 1
}

/// The copath node of slot `x` at level `k - 1`: the child of `x`'s level-`k`
/// ancestor whose subtree does not hold `x`.
pub open spec fn copath_at(x: int, k: nat) -> int {
    let a = ancestor_at(x, k);
    let h = pow2((k - 1) as nat) as int;
    if x < a {
        a + h
    } else {
        a - h
    }
}

/// Number of ciphertexts owed at entry `i` (level `i + 1`) of a path from slot `x`.
pub open spec fn owed_ciphertexts(nodes: Seq<Node>, x: int, i: int) -> nat {
    resolution(nodes, copath_at(x, (i + 1) as nat), i as nat).len()
}

/// The outcome of checking `path`, sent from slot `x`, against a tree of
/// `nodes` with `levels` levels above its leaves.
pub open spec fn path_check(nodes: Seq<Node>, x: int, levels: nat, path: Seq<UpdatePathNode>) -> Result<(), TreeError> {
    if path.len() != levels {
        Err(TreeError::PathLengthMismatch)
    } else if exists|i: int| 0 <= i < path.len()
        && (#[trigger] path[i]).encrypted_path_secret@.len() != owed_ciphertexts(nodes, x, i) {
        Err(TreeError::CiphertextCountMismatch)
    } else {
        Ok(())
    }
}

proof fn lemma_copath_bounds(x: int, k: nat)
    requires
        0 <= x,
        k >= 1,
    ensures
        copath_at(x, k) + 1 >= pow2((k - 1) as nat),
        copath_at(x, k) + pow2((k - 1) as nat) <= x + 2 * pow2(k),
{
    lemma_pow2_unfold(k);
    lemma_pow2_pos((k - 1) as nat);
    let m = 2 * pow2(k) as int;
    let b = (x / m) * m;
    assert(0 <= b <= x) by {
        vstd::arithmetic::div_mod::lemma_fundamental_div_mod(x, m);
        vstd::arithmetic::div_mod::lemma_mod_pos_bound(x, m);
        vstd::arithmetic::div_mod::lemma_div_pos_is_pos(x, m);
        lemma_mul_nonneg_comm(x / m, m);
    }
}

proof fn lemma_mul_nonneg_comm(q: int, m: int)
    requires
        q >= 0,
        m > 0,
    ensures
        q * m >= 0,
        q * m == m * q,
{
    assert(q * m >= 0 && q * m == m * q) by (nonlinear_arith)
        requires
            q >= 0,
            m > 0,
    ;
}

impl RatchetTree {
    /// Number of levels above the leaves.
    pub fn height(&self) -> (r: u32)
        requires
            self.shape_wf(),
        ensures
            r == root_level(self.spec_leaf_count()),
    {
        levels_for(self.leaf_count())
    }

    /// Checks that `path`, sent by the member at `sender_leaf`, fits this tree:
    /// one entry per level, and at each level as many ciphertexts as the
    /// copath node's resolution has members.
    pub fn validate_update_path(&self, sender_leaf: u32, path: &UpdatePath) -> (r: Result<(), TreeError>)
        requires
            self.shape_wf(),
            sender_leaf < self.spec_leaf_count(),
        ensures
            r == path_check(self.nodes@, 2 * sender_leaf as int, root_level(self.spec_leaf_count()), path.nodes@),
    {
        let levels = self.height();
        if path.nodes.len() != levels as usize {
            return Err(TreeError::PathLengthMismatch);
        }
        proof {
            lemma_root_level_bound(self.spec_leaf_count());
        }
        let x: u64 = 2 * sender_leaf as u64;
        let mut i: usize = 0;
        let mut w: u64 = 2;
        proof {
            vstd::arithmetic::power2::lemma2_to64();
        }
        while i < path.nodes.len()
            invariant
                path.nodes@.len() == levels,
                levels == root_level(self.spec_leaf_count()),
                levels <= 2147483648,
                pow2(levels as nat) <= 2 * self.spec_leaf_count(),
                self.spec_leaf_count() < 2147483648,
                x == 2 * sender_leaf,
                sender_leaf < self.spec_leaf_count(),
                i <= levels,
                w == pow2((i + 1) as nat),
                forall|j: int| 0 <= j < i ==> (#[trigger] path.nodes@[j]).encrypted_path_secret@.len() == owed_ciphertexts(self.nodes@, x as int, j),
            decreases levels - i,
        {
            proof {
                lemma_pow2_unfold((i + 1) as nat);
                lemma_pow2_pos(i as nat);
                if i + 1 < levels {
                    vstd::arithmetic::power2::lemma_pow2_strictly_increases((i + 1) as nat, levels as nat);
                }
                lemma_pow2_unfold((i + 2) as nat);
                lemma_copath_bounds(x as int, (i + 1) as nat);
            }
            let h = w / 2;
            let m = 2 * w;
            let a = (x / m) * m + w - 1;
            proof {
                let (xi, mi) = (x as int, m as int);
                assert((xi / mi) * mi <= xi) by {
                    vstd::arithmetic::div_mod::lemma_fundamental_div_mod(xi, mi);
                    vstd::arithmetic::div_mod::lemma_mod_pos_bound(xi, mi);
                    assert((xi / mi) * mi == mi * (xi / mi)) by (nonlinear_arith);
                }
            }
            let c = if x < a { a + h } else { a - h };
            assert(c == copath_at(x as int, (i + 1) as nat));
            let mut out: Vec<u64> = Vec::new();
            push_resolution(&self.nodes, c, i as u32, h, &mut out);
            assert(out@ =~= resolution(self.nodes@, c as int, i as nat));
            if path.nodes[i].encrypted_path_secret.len() != out.len() {
                return Err(TreeError::CiphertextCountMismatch);
            }
            i += 1;
            w = w * 2;
        }
        Ok(())
    }
}

} // verus!
