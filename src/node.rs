use vstd::prelude::*;

use crate::codec::{
    deep_seq, enc_vec, encode_vec, decode_vec, lemma_cancel, lemma_extends_append, lemma_extends_trans,
    lemma_starts_at_split, lemma_vec_prefix_free,
    starts_at, vec_valid, Codec, CodecError, VecSize,
};

verus! {

/// A member's signed credential and public key, carried as an opaque blob.
#[derive(Clone, Debug, PartialEq, Eq)]
pub struct KeyPackage {
    pub bytes: Vec<u8>,
}

/// A public key of the public-key encryption scheme.
#[derive(Clone, Debug, PartialEq, Eq)]
pub struct HpkePublicKey {
    pub bytes: Vec<u8>,
}

/// A private key of the public-key encryption scheme.
#[derive(Clone, Debug, PartialEq, Eq)]
pub struct HpkePrivateKey {
    pub bytes: Vec<u8>,
}

/// A path secret encrypted to one public key.
#[derive(Clone, Debug, PartialEq, Eq)]
pub struct HpkeCiphertext {
    pub bytes: Vec<u8>,
}

/// A private key with its public key.
#[derive(Clone, Debug, PartialEq, Eq)]
pub struct HpkeKeyPair {
    pub private_key: HpkePrivateKey,
    pub public_key: HpkePublicKey,
}

/// An intermediate node: its public key and the leaves added below it that
/// have not yet sent an update path of their own.
#[derive(Clone, Debug, PartialEq, Eq)]
pub struct ParentNode {
    pub public_key: HpkePublicKey,
    pub unmerged_leaves: Vec<u32>,
}

impl DeepView for KeyPackage {
    type V = Seq<u8>;

    open spec fn deep_view(&self) -> Seq<u8> {
        self.bytes.deep_view()
    }
}

impl Codec for KeyPackage {
    open spec fn valid(&self) -> bool {
        vec_valid(VecSize::VecU32, self.bytes@)
    }

    open spec fn enc(&self) -> Seq<u8> {
        enc_vec(VecSize::VecU32, self.bytes@)
    }

    proof fn lemma_enc_nonempty(&self) {
    }

    proof fn lemma_enc_prefix_free(&self, other: &Self, s: Seq<u8>, t: Seq<u8>) {
        lemma_vec_prefix_free(VecSize::VecU32, self.bytes@, other.bytes@, s, t);
        assert(self.bytes.deep_view() =~= deep_seq(self.bytes@));
        assert(other.bytes.deep_view() =~= deep_seq(other.bytes@));
    }

    fn encode(&self, buffer: &mut Vec<u8>) -> (r: Result<(), CodecError>) {
        let ghost b0 = buffer@;
        let r = encode_vec(VecSize::VecU32, buffer, &self.bytes);
        if r.is_err() {
            return r;
        }
        assert(buffer@ =~= b0 + self.enc());
        Ok(())
    }

    fn decode(data: &Vec<u8>, pos: usize) -> (r: Result<(Self, usize), CodecError>) {
        let (bytes, p0) = match decode_vec::<u8>(VecSize::VecU32, data, pos) {
            Ok(x) => x,
            Err(e) => {
                assert forall|v: Self| #[trigger] v.valid() && starts_at(data@, pos as int, v.enc()) implies false by {
                    assert(vec_valid(VecSize::VecU32, v.bytes@));
                }
                return Err(e);
            },
        };
        let res = KeyPackage { bytes };
        proof {
            assert forall|v: Self| #[trigger] v.valid() && starts_at(data@, pos as int, v.enc()) implies res.deep_view() == v.deep_view() && res.enc() == v.enc() by {
                assert(vec_valid(VecSize::VecU32, v.bytes@));
                assert(res.bytes.deep_view().len() == res.bytes@.len());
                assert(res.bytes@.len() == v.bytes@.len());
                assert(v.bytes.deep_view() =~= deep_seq(v.bytes@));
            }
        }
        Ok((res, p0))
    }
}

impl DeepView for HpkePublicKey {
    type V = Seq<u8>;

    open spec fn deep_view(&self) -> Seq<u8> {
        self.bytes.deep_view()
    }
}

impl Codec for HpkePublicKey {
    open spec fn valid(&self) -> bool {
        vec_valid(VecSize::VecU16, self.bytes@)
    }

    open spec fn enc(&self) -> Seq<u8> {
        enc_vec(VecSize::VecU16, self.bytes@)
    }

    proof fn lemma_enc_nonempty(&self) {
    }

    proof fn lemma_enc_prefix_free(&self, other: &Self, s: Seq<u8>, t: Seq<u8>) {
        lemma_vec_prefix_free(VecSize::VecU16, self.bytes@, other.bytes@, s, t);
        assert(self.bytes.deep_view() =~= deep_seq(self.bytes@));
        assert(other.bytes.deep_view() =~= deep_seq(other.bytes@));
    }

    fn encode(&self, buffer: &mut Vec<u8>) -> (r: Result<(), CodecError>) {
        let ghost b0 = buffer@;
        let r = encode_vec(VecSize::VecU16, buffer, &self.bytes);
        if r.is_err() {
            return r;
        }
        assert(buffer@ =~= b0 + self.enc());
        Ok(())
    }

    fn decode(data: &Vec<u8>, pos: usize) -> (r: Result<(Self, usize), CodecError>) {
        let (bytes, p0) = match decode_vec::<u8>(VecSize::VecU16, data, pos) {
            Ok(x) => x,
            Err(e) => {
                assert forall|v: Self| #[trigger] v.valid() && starts_at(data@, pos as int, v.enc()) implies false by {
                    assert(vec_valid(VecSize::VecU16, v.bytes@));
                }
                return Err(e);
            },
        };
        let res = HpkePublicKey { bytes };
        proof {
            assert forall|v: Self| #[trigger] v.valid() && starts_at(data@, pos as int, v.enc()) implies res.deep_view() == v.deep_view() && res.enc() == v.enc() by {
                assert(vec_valid(VecSize::VecU16, v.bytes@));
                assert(res.bytes.deep_view().len() == res.bytes@.len());
                assert(res.bytes@.len() == v.bytes@.len());
                assert(v.bytes.deep_view() =~= deep_seq(v.bytes@));
            }
        }
        Ok((res, p0))
    }
}

impl DeepView for HpkePrivateKey {
    type V = Seq<u8>;

    open spec fn deep_view(&self) -> Seq<u8> {
        self.bytes.deep_view()
    }
}

impl Codec for HpkePrivateKey {
    open spec fn valid(&self) -> bool {
        vec_valid(VecSize::VecU16, self.bytes@)
    }

    open spec fn enc(&self) -> Seq<u8> {
        enc_vec(VecSize::VecU16, self.bytes@)
    }

    proof fn lemma_enc_nonempty(&self) {
    }

    proof fn lemma_enc_prefix_free(&self, other: &Self, s: Seq<u8>, t: Seq<u8>) {
        lemma_vec_prefix_free(VecSize::VecU16, self.bytes@, other.bytes@, s, t);
        assert(self.bytes.deep_view() =~= deep_seq(self.bytes@));
        assert(other.bytes.deep_view() =~= deep_seq(other.bytes@));
    }

    fn encode(&self, buffer: &mut Vec<u8>) -> (r: Result<(), CodecError>) {
        let ghost b0 = buffer@;
        let r = encode_vec(VecSize::VecU16, buffer, &self.bytes);
        if r.is_err() {
            return r;
        }
        assert(buffer@ =~= b0 + self.enc());
        Ok(())
    }

    fn decode(data: &Vec<u8>, pos: usize) -> (r: Result<(Self, usize), CodecError>) {
        let (bytes, p0) = match decode_vec::<u8>(VecSize::VecU16, data, pos) {
            Ok(x) => x,
            Err(e) => {
                assert forall|v: Self| #[trigger] v.valid() && starts_at(data@, pos as int, v.enc()) implies false by {
                    assert(vec_valid(VecSize::VecU16, v.bytes@));
                }
                return Err(e);
            },
        };
        let res = HpkePrivateKey { bytes };
        proof {
            assert forall|v: Self| #[trigger] v.valid() && starts_at(data@, pos as int, v.enc()) implies res.deep_view() == v.deep_view() && res.enc() == v.enc() by {
                assert(vec_valid(VecSize::VecU16, v.bytes@));
                assert(res.bytes.deep_view().len() == res.bytes@.len());
                assert(res.bytes@.len() == v.bytes@.len());
                assert(v.bytes.deep_view() =~= deep_seq(v.bytes@));
            }
        }
        Ok((res, p0))
    }
}

impl DeepView for HpkeCiphertext {
    type V = Seq<u8>;

    open spec fn deep_view(&self) -> Seq<u8> {
        self.bytes.deep_view()
    }
}

impl Codec for HpkeCiphertext {
    open spec fn valid(&self) -> bool {
        vec_valid(VecSize::VecU16, self.bytes@)
    }

    open spec fn enc(&self) -> Seq<u8> {
        enc_vec(VecSize::VecU16, self.bytes@)
    }

    proof fn lemma_enc_nonempty(&self) {
    }

    proof fn lemma_enc_prefix_free(&self, other: &Self, s: Seq<u8>, t: Seq<u8>) {
        lemma_vec_prefix_free(VecSize::VecU16, self.bytes@, other.bytes@, s, t);
        assert(self.bytes.deep_view() =~= deep_seq(self.bytes@));
        assert(other.bytes.deep_view() =~= deep_seq(other.bytes@));
    }

    fn encode(&self, buffer: &mut Vec<u8>) -> (r: Result<(), CodecError>) {
        let ghost b0 = buffer@;
        let r = encode_vec(VecSize::VecU16, buffer, &self.bytes);
        if r.is_err() {
            return r;
        }
        assert(buffer@ =~= b0 + self.enc());
        Ok(())
    }

    fn decode(data: &Vec<u8>, pos: usize) -> (r: Result<(Self, usize), CodecError>) {
        let (bytes, p0) = match decode_vec::<u8>(VecSize::VecU16, data, pos) {
            Ok(x) => x,
            Err(e) => {
                assert forall|v: Self| #[trigger] v.valid() && starts_at(data@, pos as int, v.enc()) implies false by {
                    assert(vec_valid(VecSize::VecU16, v.bytes@));
                }
                return Err(e);
            },
        };
        let res = HpkeCiphertext { bytes };
        proof {
            assert forall|v: Self| #[trigger] v.valid() && starts_at(data@, pos as int, v.enc()) implies res.deep_view() == v.deep_view() && res.enc() == v.enc() by {
                assert(vec_valid(VecSize::VecU16, v.bytes@));
                assert(res.bytes.deep_view().len() == res.bytes@.len());
                assert(res.bytes@.len() == v.bytes@.len());
                assert(v.bytes.deep_view() =~= deep_seq(v.bytes@));
            }
        }
        Ok((res, p0))
    }
}

impl DeepView for HpkeKeyPair {
    type V = (Seq<u8>, Seq<u8>);

    open spec fn deep_view(&self) -> (Seq<u8>, Seq<u8>) {
        (self.private_key.deep_view(), self.public_key.deep_view())
    }
}

impl Codec for HpkeKeyPair {
    open spec fn valid(&self) -> bool {
        self.private_key.valid() && self.public_key.valid()
    }

    open spec fn enc(&self) -> Seq<u8> {
        self.private_key.enc() + self.public_key.enc()
    }

    proof fn lemma_enc_nonempty(&self) {
        self.private_key.lemma_enc_nonempty();
    }

    proof fn lemma_enc_prefix_free(&self, other: &Self, s: Seq<u8>, t: Seq<u8>) {
        let s1 = self.public_key.enc() + s;
        let t1 = other.public_key.enc() + t;
        assert(self.enc() + s =~= self.private_key.enc() + s1);
        assert(other.enc() + t =~= other.private_key.enc() + t1);
        self.private_key.lemma_enc_prefix_free(&other.private_key, s1, t1);
        lemma_cancel(self.private_key.enc(), s1, t1);
        self.public_key.lemma_enc_prefix_free(&other.public_key, s, t);
    }

    fn encode(&self, buffer: &mut Vec<u8>) -> (r: Result<(), CodecError>) {
        let ghost b0 = buffer@;
        let r = self.private_key.encode(buffer);
        if r.is_err() {
            return r;
        }
        let ghost b1 = buffer@;
        let r = self.public_key.encode(buffer);
        if r.is_err() {
            proof {
                assert(b1 =~= b0 + b1.subrange(b0.len() as int, b1.len() as int));
                lemma_extends_append(b0, b1.subrange(b0.len() as int, b1.len() as int));
                lemma_extends_trans(b0, b1, buffer@);
            }
            return r;
        }
        assert(buffer@ =~= b0 + self.enc());
        Ok(())
    }

    fn decode(data: &Vec<u8>, pos: usize) -> (r: Result<(Self, usize), CodecError>) {
        let (private_key, p0) = match HpkePrivateKey::decode(data, pos) {
            Ok(x) => x,
            Err(e) => {
                assert forall|v: Self| #[trigger] v.valid() && starts_at(data@, pos as int, v.enc()) implies false by {
                    lemma_starts_at_split(data@, pos as int, v.private_key.enc(), v.public_key.enc());
                    assert(v.private_key.valid());
                }
                return Err(e);
            },
        };
        let (public_key, p1) = match HpkePublicKey::decode(data, p0) {
            Ok(x) => x,
            Err(e) => {
                assert forall|v: Self| #[trigger] v.valid() && starts_at(data@, pos as int, v.enc()) implies false by {
                    lemma_starts_at_split(data@, pos as int, v.private_key.enc(), v.public_key.enc());
                    assert(v.private_key.valid());
                    assert(v.public_key.valid());
                }
                return Err(e);
            },
        };
        let res = HpkeKeyPair { private_key, public_key };
        proof {
            lemma_starts_at_split(data@, pos as int, res.private_key.enc(), res.public_key.enc());
            assert forall|v: Self| #[trigger] v.valid() && starts_at(data@, pos as int, v.enc()) implies res.deep_view() == v.deep_view() && res.enc() == v.enc() by {
                lemma_starts_at_split(data@, pos as int, v.private_key.enc(), v.public_key.enc());
                assert(v.private_key.valid());
                assert(v.public_key.valid());
            }
        }
        Ok((res, p1))
    }
}

impl DeepView for ParentNode {
    type V = (Seq<u8>, Seq<u32>);

    open spec fn deep_view(&self) -> (Seq<u8>, Seq<u32>) {
        (self.public_key.deep_view(), self.unmerged_leaves.deep_view())
    }
}

impl Codec for ParentNode {
    open spec fn valid(&self) -> bool {
        self.public_key.valid() && vec_valid(VecSize::VecU32, self.unmerged_leaves@)
    }

    open spec fn enc(&self) -> Seq<u8> {
        self.public_key.enc() + enc_vec(VecSize::VecU32, self.unmerged_leaves@)
    }

    proof fn lemma_enc_nonempty(&self) {
        self.public_key.lemma_enc_nonempty();
    }

    proof fn lemma_enc_prefix_free(&self, other: &Self, s: Seq<u8>, t: Seq<u8>) {
        let s1 = enc_vec(VecSize::VecU32, self.unmerged_leaves@) + s;
        let t1 = enc_vec(VecSize::VecU32, other.unmerged_leaves@) + t;
        assert(self.enc() + s =~= self.public_key.enc() + s1);
        assert(other.enc() + t =~= other.public_key.enc() + t1);
        self.public_key.lemma_enc_prefix_free(&other.public_key, s1, t1);
        lemma_cancel(self.public_key.enc(), s1, t1);
        lemma_vec_prefix_free(VecSize::VecU32, self.unmerged_leaves@, other.unmerged_leaves@, s, t);
        assert(self.unmerged_leaves.deep_view() =~= deep_seq(self.unmerged_leaves@));
        assert(other.unmerged_leaves.deep_view() =~= deep_seq(other.unmerged_leaves@));
    }

    fn encode(&self, buffer: &mut Vec<u8>) -> (r: Result<(), CodecError>) {
        let ghost b0 = buffer@;
        let r = self.public_key.encode(buffer);
        if r.is_err() {
            return r;
        }
        let ghost b1 = buffer@;
        let r = encode_vec(VecSize::VecU32, buffer, &self.unmerged_leaves);
        if r.is_err() {
            proof {
                assert(b1 =~= b0 + b1.subrange(b0.len() as int, b1.len() as int));
                lemma_extends_append(b0, b1.subrange(b0.len() as int, b1.len() as int));
                lemma_extends_trans(b0, b1, buffer@);
            }
            return r;
        }
        assert(buffer@ =~= b0 + self.enc());
        Ok(())
    }

    fn decode(data: &Vec<u8>, pos: usize) -> (r: Result<(Self, usize), CodecError>) {
        let (public_key, p0) = match HpkePublicKey::decode(data, pos) {
            Ok(x) => x,
            Err(e) => {
                assert forall|v: Self| #[trigger] v.valid() && starts_at(data@, pos as int, v.enc()) implies false by {
                    lemma_starts_at_split(data@, pos as int, v.public_key.enc(), enc_vec(VecSize::VecU32, v.unmerged_leaves@));
                    assert(v.public_key.valid());
                }
                return Err(e);
            },
        };
        let (unmerged_leaves, p1) = match decode_vec::<u32>(VecSize::VecU32, data, p0) {
            Ok(x) => x,
            Err(e) => {
                assert forall|v: Self| #[trigger] v.valid() && starts_at(data@, pos as int, v.enc()) implies false by {
                    lemma_starts_at_split(data@, pos as int, v.public_key.enc(), enc_vec(VecSize::VecU32, v.unmerged_leaves@));
                    assert(v.public_key.valid());
                    assert(vec_valid(VecSize::VecU32, v.unmerged_leaves@));
                }
                return Err(e);
            },
        };
        let res = ParentNode { public_key, unmerged_leaves };
        proof {
            lemma_starts_at_split(data@, pos as int, res.public_key.enc(), enc_vec(VecSize::VecU32, res.unmerged_leaves@));
            assert forall|v: Self| #[trigger] v.valid() && starts_at(data@, pos as int, v.enc()) implies res.deep_view() == v.deep_view() && res.enc() == v.enc() by {
                lemma_starts_at_split(data@, pos as int, v.public_key.enc(), enc_vec(VecSize::VecU32, v.unmerged_leaves@));
                assert(v.public_key.valid());
                assert(vec_valid(VecSize::VecU32, v.unmerged_leaves@));
                assert(res.unmerged_leaves.deep_view().len() == res.unmerged_leaves@.len());
                assert(res.unmerged_leaves@.len() == v.unmerged_leaves@.len());
                assert(v.unmerged_leaves.deep_view() =~= deep_seq(v.unmerged_leaves@));
            }
        }
        Ok((res, p1))
    }
}

/// The shape of a tree slot.
#[derive(Clone, Copy, Debug, PartialEq, Eq, Structural)]
pub enum NodeType {
    Leaf,
    Parent,
    Empty,
}

/// The one-byte discriminant of a node shape.
pub open spec fn node_type_tag(t: NodeType) -> u8 {
    match t {
        NodeType::Leaf => 0,
        NodeType::Parent => 1,
        NodeType::Empty => 255,
    }
}

impl DeepView for NodeType {
    type V = NodeType;

    open spec fn deep_view(&self) -> NodeType {
        *self
    }
}

impl Codec for NodeType {
    open spec fn valid(&self) -> bool {
        true
    }

    open spec fn enc(&self) -> Seq<u8> {
        seq![node_type_tag(*self)]
    }

    proof fn lemma_enc_nonempty(&self) {
    }

    proof fn lemma_enc_prefix_free(&self, other: &Self, s: Seq<u8>, t: Seq<u8>) {
        assert((self.enc() + s)[0] == self.enc()[0] && (other.enc() + t)[0] == other.enc()[0]);
        assert(self.enc()[0] == other.enc()[0]);
    }

    fn encode(&self, buffer: &mut Vec<u8>) -> (r: Result<(), CodecError>) {
        let tag: u8 = match self {
            NodeType::Leaf => 0,
            NodeType::Parent => 1,
            NodeType::Empty => 255,
        };
        tag.encode(buffer)
    }

    fn decode(data: &Vec<u8>, pos: usize) -> (r: Result<(Self, usize), CodecError>) {
        let (tag, end) = match u8::decode(data, pos) {
            Ok(x) => x,
            Err(e) => {
                assert forall|v: Self| #[trigger] v.valid() && starts_at(data@, pos as int, v.enc()) implies false by {
                    assert(node_type_tag(v).valid());
                }
                return Err(e);
            },
        };
        let t = if tag == 0 {
            NodeType::Leaf
        } else if tag == 1 {
            NodeType::Parent
        } else if tag == 255 {
            NodeType::Empty
        } else {
            assert forall|v: Self| #[trigger] v.valid() && starts_at(data@, pos as int, v.enc()) implies false by {
                assert(node_type_tag(v).valid());
            }
            return Err(CodecError::UnknownValue);
        };
        assert forall|v: Self| #[trigger] v.valid() && starts_at(data@, pos as int, v.enc()) implies v == t by {
            assert(node_type_tag(v).valid());
        }
        Ok((t, end))
    }
}

/// A slot of the ratchet tree.
#[derive(Clone, Debug, PartialEq, Eq)]
pub enum Node {
    /// A blank slot.
    Empty,
    /// A leaf held by a member.
    Leaf(KeyPackage),
    /// An intermediate node.
    Parent(ParentNode),
}

/// What a node holds, as plain values.
pub enum NodeView {
    Empty,
    Leaf(Seq<u8>),
    Parent(Seq<u8>, Seq<u32>),
}

impl DeepView for Node {
    type V = NodeView;

    open spec fn deep_view(&self) -> NodeView {
        match self {
            Node::Empty => NodeView::Empty,
            Node::Leaf(k) => NodeView::Leaf(k.deep_view()),
            Node::Parent(p) => NodeView::Parent(p.public_key.deep_view(), p.unmerged_leaves.deep_view()),
        }
    }
}

impl Node {
    pub open spec fn spec_node_type(&self) -> NodeType {
        match self {
            Node::Empty => NodeType::Empty,
            Node::Leaf(_) => NodeType::Leaf,
            Node::Parent(_) => NodeType::Parent,
        }
    }

    /// The shape of this node.
    pub fn node_type(&self) -> (r: NodeType)
        ensures
            r == self.spec_node_type(),
    {
        match self {
            Node::Empty => NodeType::Empty,
            Node::Leaf(_) => NodeType::Leaf,
            Node::Parent(_) => NodeType::Parent,
        }
    }

    /// The encoding of what follows the discriminant.
    pub open spec fn payload_enc(&self) -> Seq<u8> {
        match self {
            Node::Empty => Seq::empty(),
            Node::Leaf(k) => k.enc(),
            Node::Parent(p) => p.enc(),
        }
    }
}

impl Codec for Node {
    open spec fn valid(&self) -> bool {
        match self {
            Node::Empty => true,
            Node::Leaf(k) => k.valid(),
            Node::Parent(p) => p.valid(),
        }
    }

    /// The discriminant, then the variant's payload.
    open spec fn enc(&self) -> Seq<u8> {
        self.spec_node_type().enc() + self.payload_enc()
    }

    proof fn lemma_enc_nonempty(&self) {
    }

    proof fn lemma_enc_prefix_free(&self, other: &Self, s: Seq<u8>, t: Seq<u8>) {
        let (ts, tt) = (self.spec_node_type(), other.spec_node_type());
        assert(self.enc() + s =~= ts.enc() + (self.payload_enc() + s));
        assert(other.enc() + t =~= tt.enc() + (other.payload_enc() + t));
        ts.lemma_enc_prefix_free(&tt, self.payload_enc() + s, other.payload_enc() + t);
        lemma_cancel(ts.enc(), self.payload_enc() + s, other.payload_enc() + t);
        match (self, other) {
            (Node::Leaf(a), Node::Leaf(b)) => a.lemma_enc_prefix_free(b, s, t),
            (Node::Parent(a), Node::Parent(b)) => a.lemma_enc_prefix_free(b, s, t),
            _ => {},
        }
    }

    fn encode(&self, buffer: &mut Vec<u8>) -> (r: Result<(), CodecError>) {
        let ghost b0 = buffer@;
        let _ = self.node_type().encode(buffer);
        let ghost b1 = buffer@;
        let r = match self {
            Node::Empty => Ok(()),
            Node::Leaf(k) => k.encode(buffer),
            Node::Parent(p) => p.encode(buffer),
        };
        proof {
            if r is Err {
                lemma_extends_append(b0, self.spec_node_type().enc());
                lemma_extends_trans(b0, b1, buffer@);
            } else {
                assert(buffer@ =~= b0 + self.enc());
            }
        }
        r
    }

    fn decode(data: &Vec<u8>, pos: usize) -> (r: Result<(Self, usize), CodecError>) {
        let (t, p) = match NodeType::decode(data, pos) {
            Ok(x) => x,
            Err(e) => {
                assert forall|v: Self| #[trigger] v.valid() && starts_at(data@, pos as int, v.enc()) implies false by {
                    lemma_starts_at_split(data@, pos as int, v.spec_node_type().enc(), v.payload_enc());
                    assert(v.spec_node_type().valid());
                }
                return Err(e);
            },
        };
        match t {
            NodeType::Empty => {
                let res = Node::Empty;
                assert(res.enc() =~= t.enc());
                assert forall|v: Self| #[trigger] v.valid() && starts_at(data@, pos as int, v.enc())
                    implies res.deep_view() == v.deep_view() && res.enc() == v.enc() by {
                    lemma_starts_at_split(data@, pos as int, v.spec_node_type().enc(), v.payload_enc());
                    assert(v.spec_node_type().valid());
                }
                Ok((res, p))
            },
            NodeType::Leaf => {
                match KeyPackage::decode(data, p) {
                    Ok((k, end)) => {
                        let res = Node::Leaf(k);
                        proof {
                            lemma_starts_at_split(data@, pos as int, t.enc(), res.payload_enc());
                            assert forall|v: Self| #[trigger] v.valid() && starts_at(data@, pos as int, v.enc())
                                implies res.deep_view() == v.deep_view() && res.enc() == v.enc() by {
                                lemma_starts_at_split(data@, pos as int, v.spec_node_type().enc(), v.payload_enc());
                                assert(v.spec_node_type().valid());
                                if let Node::Leaf(vk) = v {
                                    assert(vk.valid());
                                }
                            }
                        }
                        Ok((res, end))
                    },
                    Err(e) => {
                        assert forall|v: Self| #[trigger] v.valid() && starts_at(data@, pos as int, v.enc()) implies false by {
                            lemma_starts_at_split(data@, pos as int, v.spec_node_type().enc(), v.payload_enc());
                            assert(v.spec_node_type().valid());
                            if let Node::Leaf(vk) = v {
                                assert(vk.valid());
                            }
                        }
                        Err(e)
                    },
                }
            },
            NodeType::Parent => {
                match ParentNode::decode(data, p) {
                    Ok((pn, end)) => {
                        let res = Node::Parent(pn);
                        proof {
                            lemma_starts_at_split(data@, pos as int, t.enc(), res.payload_enc());
                            assert forall|v: Self| #[trigger] v.valid() && starts_at(data@, pos as int, v.enc())
                                implies res.deep_view() == v.deep_view() && res.enc() == v.enc() by {
                                lemma_starts_at_split(data@, pos as int, v.spec_node_type().enc(), v.payload_enc());
                                assert(v.spec_node_type().valid());
                                if let Node::Parent(vp) = v {
                                    assert(vp.valid());
                                }
                            }
                        }
                        Ok((res, end))
                    },
                    Err(e) => {
                        assert forall|v: Self| #[trigger] v.valid() && starts_at(data@, pos as int, v.enc()) implies false by {
                            lemma_starts_at_split(data@, pos as int, v.spec_node_type().enc(), v.payload_enc());
                            assert(v.spec_node_type().valid());
                            if let Node::Parent(vp) = v {
                                assert(vp.valid());
                            }
                        }
                        Err(e)
                    },
                }
            },
        }
    }
}

} // verus!
