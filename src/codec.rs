use vstd::prelude::*;

verus! {

/// Why encoding or decoding failed.
#[derive(Clone, Copy, Debug, PartialEq, Eq, Structural)]
pub enum CodecError {
    /// The input ends before the value does.
    EndOfStream,
    /// A length prefix announces more elements than the rest of the input can hold.
    LengthExceedsInput,
    /// A discriminant names no known variant.
    UnknownValue,
    /// A value does not fit its encoding, e.g. a sequence too long for its length prefix.
    EncodingTooLarge,
}

/// `data` holds the bytes `e` from position `pos` on.
pub open spec fn starts_at(data: Seq<u8>, pos: int, e: Seq<u8>) -> bool {
    &&& 0 <= pos
    &&& pos + e.len() <= data.len()
    &&& data.subrange(pos, pos + e.len()) == e
}

/// `b` is `a` with zero or more bytes appended.
pub open spec fn extends(a: Seq<u8>, b: Seq<u8>) -> bool {
    a.len() <= b.len() && b.subrange(0, a.len() as int) == a
}

pub proof fn lemma_starts_at_split(data: Seq<u8>, pos: int, a: Seq<u8>, b: Seq<u8>)
    ensures
        starts_at(data, pos, a + b) <==> (starts_at(data, pos, a) && starts_at(data, pos + a.len(), b)),
{
    if starts_at(data, pos, a + b) {
        let whole = data.subrange(pos, pos + (a + b).len());
        assert(data.subrange(pos, pos + a.len()) =~= whole.subrange(0, a.len() as int));
        assert(whole.subrange(0, a.len() as int) =~= a);
        assert(data.subrange(pos + a.len(), pos + a.len() + b.len()) =~= whole.subrange(a.len() as int, (a + b).len() as int));
        assert(whole.subrange(a.len() as int, (a + b).len() as int) =~= b);
    }
    if starts_at(data, pos, a) && starts_at(data, pos + a.len(), b) {
        assert forall|i: int| 0 <= i < (a + b).len() implies data.subrange(pos, pos + (a + b).len())[i] == (a + b)[i] by {
            if i < a.len() {
                assert(data.subrange(pos, pos + a.len())[i] == a[i]);
            } else {
                assert(data.subrange(pos + a.len(), pos + a.len() + b.len())[i - a.len()] == b[i - a.len()]);
            }
        }
        assert(data.subrange(pos, pos + (a + b).len()) =~= a + b);
    }
}

pub proof fn lemma_extends_append(a: Seq<u8>, b: Seq<u8>)
    ensures
        extends(a, a + b),
{
    assert((a + b).subrange(0, a.len() as int) =~= a);
}

pub proof fn lemma_extends_trans(a: Seq<u8>, b: Seq<u8>, c: Seq<u8>)
    requires
        extends(a, b),
        extends(b, c),
    ensures
        extends(a, c),
{
    assert(c.subrange(0, a.len() as int) =~= c.subrange(0, b.len() as int).subrange(0, a.len() as int));
}

/// The deep views of the elements of `s`.
pub open spec fn deep_seq<T: DeepView>(s: Seq<T>) -> Seq<T::V> {
    Seq::new(s.len(), |i: int| s[i].deep_view())
}

/// A value with a deterministic binary encoding.
pub trait Codec: Sized + DeepView {
    /// The value can be encoded: every sequence in it fits its length prefix.
    spec fn valid(&self) -> bool;

    /// The bytes that encode the value.
    spec fn enc(&self) -> Seq<u8>;

    proof fn lemma_enc_nonempty(&self)
        ensures
            self.enc().len() > 0,
    ;

    /// Equal encodings come from equal values, and no valid encoding is a
    /// proper prefix of another.
    proof fn lemma_enc_prefix_free(&self, other: &Self, s: Seq<u8>, t: Seq<u8>)
        requires
            self.valid(),
            other.valid(),
            self.enc() + s == other.enc() + t,
        ensures
            self.deep_view() == other.deep_view(),
            self.enc() == other.enc(),
    ;

    /// Appends the encoding of the value to `buffer`; fails exactly when the
    /// value is not valid.
    fn encode(&self, buffer: &mut Vec<u8>) -> (r: Result<(), CodecError>)
        ensures
            r is Ok <==> self.valid(),
            r is Ok ==> final(buffer)@ == old(buffer)@ + self.enc(),
            r is Err ==> r == Err::<(), CodecError>(CodecError::EncodingTooLarge),
            r is Err ==> extends(old(buffer)@, final(buffer)@),
    ;

    /// Reads a value from `data` at `pos`, returning it with the position
    /// after it. Succeeds, with a value equal to `v`, exactly when the input
    /// holds the encoding of a valid value `v` there.
    fn decode(data: &Vec<u8>, pos: usize) -> (r: Result<(Self, usize), CodecError>)
        requires
            pos <= data@.len(),
        ensures
            r matches Ok((v, end)) ==> v.valid() && end == pos + v.enc().len() && starts_at(data@, pos as int, v.enc()),
            forall|v: Self| #[trigger] v.valid() && starts_at(data@, pos as int, v.enc())
                ==> (r matches Ok((w, end)) && w.deep_view() == v.deep_view() && w.enc() == v.enc()
                    && end == pos + v.enc().len()),
    ;
}

impl Codec for u8 {
    open spec fn valid(&self) -> bool {
        true
    }

    open spec fn enc(&self) -> Seq<u8> {
        seq![*self]
    }

    proof fn lemma_enc_nonempty(&self) {
    }

    proof fn lemma_enc_prefix_free(&self, other: &Self, s: Seq<u8>, t: Seq<u8>) {
        assert((self.enc() + s)[0] == self.enc()[0] && (other.enc() + t)[0] == other.enc()[0]);
        assert(self.enc()[0] == other.enc()[0]);
    }

    fn encode(&self, buffer: &mut Vec<u8>) -> (r: Result<(), CodecError>) {
        buffer.push(*self);
        Ok(())
    }

    fn decode(data: &Vec<u8>, pos: usize) -> (r: Result<(Self, usize), CodecError>) {
        if pos >= data.len() {
            return Err(CodecError::EndOfStream);
        }
        let v = data[pos];
        assert(data@.subrange(pos as int, pos + 1) =~= v.enc());
        assert forall|w: u8| w.valid() && starts_at(data@, pos as int, w.enc()) implies w == v by {
            assert(data@.subrange(pos as int, pos + 1)[0] == w.enc()[0]);
        }
        Ok((v, pos + 1))
    }
}

impl Codec for u16 {
    open spec fn valid(&self) -> bool {
        true
    }

    /// Big-endian.
    open spec fn enc(&self) -> Seq<u8> {
        seq![(*self / 256) as u8, (*self % 256) as u8]
    }

    proof fn lemma_enc_nonempty(&self) {
    }

    proof fn lemma_enc_prefix_free(&self, other: &Self, s: Seq<u8>, t: Seq<u8>) {
        assert((self.enc() + s)[0] == self.enc()[0] && (other.enc() + t)[0] == other.enc()[0]);
        assert(self.enc()[0] == other.enc()[0]);
        assert((self.enc() + s)[1] == self.enc()[1] && (other.enc() + t)[1] == other.enc()[1]);
        assert(self.enc()[1] == other.enc()[1]);
        assert(*self == (*self / 256) * 256 + *self % 256);
        assert(*other == (*other / 256) * 256 + *other % 256);
    }

    fn encode(&self, buffer: &mut Vec<u8>) -> (r: Result<(), CodecError>) {
        buffer.push((*self / 256) as u8);
        buffer.push((*self % 256) as u8);
        assert(buffer@ =~= old(buffer)@ + self.enc());
        Ok(())
    }

    fn decode(data: &Vec<u8>, pos: usize) -> (r: Result<(Self, usize), CodecError>) {
        if data.len() - pos < 2 {
            return Err(CodecError::EndOfStream);
        }
        let b0 = data[pos];
        let b1 = data[pos + 1];
        let v: u16 = b0 as u16 * 256 + b1 as u16;
        assert(data@.subrange(pos as int, pos + 2) =~= v.enc());
        assert forall|w: u16| w.valid() && starts_at(data@, pos as int, w.enc()) implies w == v by {
            assert(data@.subrange(pos as int, pos + 2)[0] == w.enc()[0]);
            assert(data@.subrange(pos as int, pos + 2)[1] == w.enc()[1]);
        }
        Ok((v, pos + 2))
    }
}

proof fn lemma_u32_from_bytes(b0: u8, b1: u8, b2: u8, b3: u8)
    ensures
        ({
            let v = b0 as u32 * 16777216 + b1 as u32 * 65536 + b2 as u32 * 256 + b3 as u32;
            v / 16777216 == b0 as u32 && v / 65536 % 256 == b1 as u32 && v / 256 % 256 == b2 as u32 && v % 256 == b3 as u32
        }),
{
    let x0 = b0 as u32;
    let x1 = b1 as u32;
    let x2 = b2 as u32;
    let x3 = b3 as u32;
    assert(x0 < 256 && x1 < 256 && x2 < 256 && x3 < 256);
    assert(x0 < 256 && x1 < 256 && x2 < 256 && x3 < 256 ==> ({
        let v = x0 * 16777216 + x1 * 65536 + x2 * 256 + x3;
        v / 16777216 == x0 && v / 65536 % 256 == x1 && v / 256 % 256 == x2 && v % 256 == x3
    })) by (bit_vector);
}

proof fn lemma_u32_to_bytes(w: u32)
    ensures
        w == ((w / 16777216) as u8) as u32 * 16777216 + ((w / 65536 % 256) as u8) as u32 * 65536
            + ((w / 256 % 256) as u8) as u32 * 256 + ((w % 256) as u8) as u32,
{
    assert(w == (w / 16777216) * 16777216 + (w / 65536 % 256) * 65536 + (w / 256 % 256) * 256 + w % 256) by (bit_vector);
}

impl Codec for u32 {
    open spec fn valid(&self) -> bool {
        true
    }

    /// Big-endian.
    open spec fn enc(&self) -> Seq<u8> {
        seq![
            (*self / 16777216) as u8,
            (*self / 65536 % 256) as u8,
            (*self / 256 % 256) as u8,
            (*self % 256) as u8,
        ]
    }

    proof fn lemma_enc_nonempty(&self) {
    }

    proof fn lemma_enc_prefix_free(&self, other: &Self, s: Seq<u8>, t: Seq<u8>) {
        assert((self.enc() + s)[0] == self.enc()[0] && (other.enc() + t)[0] == other.enc()[0]);
        assert(self.enc()[0] == other.enc()[0]);
        assert((self.enc() + s)[1] == self.enc()[1] && (other.enc() + t)[1] == other.enc()[1]);
        assert(self.enc()[1] == other.enc()[1]);
        assert((self.enc() + s)[2] == self.enc()[2] && (other.enc() + t)[2] == other.enc()[2]);
        assert(self.enc()[2] == other.enc()[2]);
        assert((self.enc() + s)[3] == self.enc()[3] && (other.enc() + t)[3] == other.enc()[3]);
        assert(self.enc()[3] == other.enc()[3]);
        lemma_u32_to_bytes(*self);
        lemma_u32_to_bytes(*other);
    }

    fn encode(&self, buffer: &mut Vec<u8>) -> (r: Result<(), CodecError>) {
        buffer.push((*self / 16777216) as u8);
        buffer.push((*self / 65536 % 256) as u8);
        buffer.push((*self / 256 % 256) as u8);
        buffer.push((*self % 256) as u8);
        assert(buffer@ =~= old(buffer)@ + self.enc());
        Ok(())
    }

    fn decode(data: &Vec<u8>, pos: usize) -> (r: Result<(Self, usize), CodecError>) {
        if data.len() - pos < 4 {
            return Err(CodecError::EndOfStream);
        }
        let b0 = data[pos];
        let b1 = data[pos + 1];
        let b2 = data[pos + 2];
        let b3 = data[pos + 3];
        let v: u32 = b0 as u32 * 16777216 + b1 as u32 * 65536 + b2 as u32 * 256 + b3 as u32;
        proof {
            lemma_u32_from_bytes(b0, b1, b2, b3);
        }
        assert(data@.subrange(pos as int, pos + 4) =~= v.enc());
        assert forall|w: u32| w.valid() && starts_at(data@, pos as int, w.enc()) implies w == v by {
            let s = data@.subrange(pos as int, pos + 4);
            assert(s[0] == w.enc()[0] && s[1] == w.enc()[1] && s[2] == w.enc()[2] && s[3] == w.enc()[3]);
            lemma_u32_to_bytes(w);
        }
        Ok((v, pos + 4))
    }
}


/// Width of a sequence's length prefix, fixed per field by the schema.
#[derive(Clone, Copy, Debug, PartialEq, Eq, Structural)]
pub enum VecSize {
    VecU8,
    VecU16,
    VecU32,
}

/// Longest sequence that a prefix of width `size` can announce.
pub open spec fn max_len(size: VecSize) -> nat {
    match size {
        VecSize::VecU8 => 255,
        VecSize::VecU16 => 65535,
        VecSize::VecU32 => 4294967295,
    }
}

/// The length prefix for `n` elements.
pub open spec fn enc_len(size: VecSize, n: nat) -> Seq<u8> {
    match size {
        VecSize::VecU8 => (n as u8).enc(),
        VecSize::VecU16 => (n as u16).enc(),
        VecSize::VecU32 => (n as u32).enc(),
    }
}

/// The elements' encodings, one after the other.
pub open spec fn enc_items<T: Codec>(s: Seq<T>) -> Seq<u8>
    decreases s.len(),
{
    if s.len() == 0 {
        Seq::empty()
    } else {
        s[0].enc() + enc_items(s.drop_first())
    }
}

/// Every element is valid.
pub open spec fn all_valid<T: Codec>(s: Seq<T>) -> bool {
    forall|i: int| 0 <= i < s.len() ==> #[trigger] s[i].valid()
}

/// A sequence can be encoded under a prefix of width `size`.
pub open spec fn vec_valid<T: Codec>(size: VecSize, s: Seq<T>) -> bool {
    s.len() <= max_len(size) && all_valid(s)
}

/// A length-prefixed sequence.
pub open spec fn enc_vec<T: Codec>(size: VecSize, s: Seq<T>) -> Seq<u8> {
    enc_len(size, s.len()) + enc_items(s)
}

pub proof fn lemma_enc_items_push<T: Codec>(s: Seq<T>, x: T)
    ensures
        enc_items(s.push(x)) == enc_items(s) + x.enc(),
    decreases s.len(),
{
    if s.len() == 0 {
        let rest = s.push(x).drop_first();
        assert(rest =~= Seq::<T>::empty());
        assert(enc_items(rest) == Seq::<u8>::empty());
        assert(enc_items(s) == Seq::<u8>::empty());
        assert(enc_items(s.push(x)) =~= enc_items(s) + x.enc());
    } else {
        assert(s.push(x).drop_first() =~= s.drop_first().push(x));
        lemma_enc_items_push(s.drop_first(), x);
        assert(enc_items(s.push(x)) =~= enc_items(s) + x.enc());
    }
}

proof fn lemma_enc_items_len<T: Codec>(s: Seq<T>)
    ensures
        enc_items(s).len() >= s.len(),
    decreases s.len(),
{
    if s.len() > 0 {
        s[0].lemma_enc_nonempty();
        lemma_enc_items_len(s.drop_first());
    }
}

pub proof fn lemma_cancel(a: Seq<u8>, s: Seq<u8>, t: Seq<u8>)
    requires
        a + s == a + t,
    ensures
        s == t,
{
    assert(s =~= (a + s).subrange(a.len() as int, (a + s).len() as int));
    assert(t =~= (a + t).subrange(a.len() as int, (a + t).len() as int));
}

proof fn lemma_items_prefix_free<T: Codec>(a: Seq<T>, b: Seq<T>, s: Seq<u8>, t: Seq<u8>)
    requires
        a.len() == b.len(),
        all_valid(a),
        all_valid(b),
        enc_items(a) + s == enc_items(b) + t,
    ensures
        deep_seq(a) == deep_seq(b),
        enc_items(a) == enc_items(b),
    decreases a.len(),
{
    if a.len() == 0 {
        assert(deep_seq(a) =~= deep_seq(b));
    } else {
        let (a1, b1) = (a.drop_first(), b.drop_first());
        assert(enc_items(a) + s =~= a[0].enc() + (enc_items(a1) + s));
        assert(enc_items(b) + t =~= b[0].enc() + (enc_items(b1) + t));
        assert(a[0].valid() && b[0].valid());
        a[0].lemma_enc_prefix_free(&b[0], enc_items(a1) + s, enc_items(b1) + t);
        lemma_cancel(a[0].enc(), enc_items(a1) + s, enc_items(b1) + t);
        assert forall|i: int| 0 <= i < a1.len() implies #[trigger] a1[i].valid() && b1[i].valid() by {
            assert(a[i + 1].valid() && b[i + 1].valid());
        }
        lemma_items_prefix_free(a1, b1, s, t);
        assert forall|i: int| 0 <= i < a.len() implies deep_seq(a)[i] == deep_seq(b)[i] by {
            if i > 0 {
                assert(deep_seq(a1)[i - 1] == deep_seq(b1)[i - 1]);
            }
        }
        assert(deep_seq(a) =~= deep_seq(b));
    }
}

/// Equal sequence encodings come from equal sequences, and no valid sequence
/// encoding is a proper prefix of another under the same prefix width.
pub proof fn lemma_vec_prefix_free<T: Codec>(size: VecSize, a: Seq<T>, b: Seq<T>, s: Seq<u8>, t: Seq<u8>)
    requires
        vec_valid(size, a),
        vec_valid(size, b),
        enc_vec(size, a) + s == enc_vec(size, b) + t,
    ensures
        deep_seq(a) == deep_seq(b),
        enc_vec(size, a) == enc_vec(size, b),
{
    let la = enc_len(size, a.len());
    let lb = enc_len(size, b.len());
    let rs = enc_items(a) + s;
    let rt = enc_items(b) + t;
    assert(enc_vec(size, a) + s =~= la + rs);
    assert(enc_vec(size, b) + t =~= lb + rt);
    match size {
        VecSize::VecU8 => (a.len() as u8).lemma_enc_prefix_free(&(b.len() as u8), rs, rt),
        VecSize::VecU16 => (a.len() as u16).lemma_enc_prefix_free(&(b.len() as u16), rs, rt),
        VecSize::VecU32 => (a.len() as u32).lemma_enc_prefix_free(&(b.len() as u32), rs, rt),
    }
    lemma_cancel(la, rs, rt);
    lemma_items_prefix_free(a, b, s, t);
}

/// Encoding is injective on valid values: two valid values with the same
/// encoding are equal.
pub proof fn lemma_encoding_injective<T: Codec>(a: T, b: T)
    requires
        a.valid(),
        b.valid(),
        a.enc() == b.enc(),
    ensures
        a.deep_view() == b.deep_view(),
{
    assert(a.enc() + Seq::<u8>::empty() =~= b.enc() + Seq::<u8>::empty());
    a.lemma_enc_prefix_free(&b, Seq::empty(), Seq::empty());
}

/// Appends the length prefix for `n` elements.
fn encode_len(size: VecSize, n: usize, buffer: &mut Vec<u8>) -> (r: Result<(), CodecError>)
    ensures
        r is Ok <==> n <= max_len(size),
        r is Ok ==> final(buffer)@ == old(buffer)@ + enc_len(size, n as nat),
        r is Err ==> r == Err::<(), CodecError>(CodecError::EncodingTooLarge) && final(buffer)@ == old(buffer)@,
{
    match size {
        VecSize::VecU8 => {
            if n > 255 {
                return Err(CodecError::EncodingTooLarge);
            }
            (n as u8).encode(buffer)
        },
        VecSize::VecU16 => {
            if n > 65535 {
                return Err(CodecError::EncodingTooLarge);
            }
            (n as u16).encode(buffer)
        },
        VecSize::VecU32 => {
            if n > 4294967295 {
                return Err(CodecError::EncodingTooLarge);
            }
            (n as u32).encode(buffer)
        },
    }
}

/// Reads a length prefix.
fn decode_len(size: VecSize, data: &Vec<u8>, pos: usize) -> (r: Result<(usize, usize), CodecError>)
    requires
        pos <= data@.len(),
    ensures
        r matches Ok((n, end)) ==> n <= max_len(size) && end == pos + enc_len(size, n as nat).len()
            && starts_at(data@, pos as int, enc_len(size, n as nat)),
        forall|n: nat| n <= max_len(size) && #[trigger] starts_at(data@, pos as int, enc_len(size, n))
            ==> r == Ok::<(usize, usize), CodecError>((n as usize, (pos + enc_len(size, n).len()) as usize)),
{
    match size {
        VecSize::VecU8 => {
            match u8::decode(data, pos) {
                Ok((v, end)) => {
                    assert forall|n: nat| n <= max_len(size) && #[trigger] starts_at(data@, pos as int, enc_len(size, n))
                        implies n == v as nat by {
                        assert((n as u8).valid());
                    }
                    Ok((v as usize, end))
                },
                Err(e) => {
                    assert forall|n: nat| n <= max_len(size) && #[trigger] starts_at(data@, pos as int, enc_len(size, n))
                        implies false by {
                        assert((n as u8).valid());
                    }
                    Err(e)
                },
            }
        },
        VecSize::VecU16 => {
            match u16::decode(data, pos) {
                Ok((v, end)) => {
                    assert forall|n: nat| n <= max_len(size) && #[trigger] starts_at(data@, pos as int, enc_len(size, n))
                        implies n == v as nat by {
                        assert((n as u16).valid());
                    }
                    Ok((v as usize, end))
                },
                Err(e) => {
                    assert forall|n: nat| n <= max_len(size) && #[trigger] starts_at(data@, pos as int, enc_len(size, n))
                        implies false by {
                        assert((n as u16).valid());
                    }
                    Err(e)
                },
            }
        },
        VecSize::VecU32 => {
            match u32::decode(data, pos) {
                Ok((v, end)) => {
                    assert forall|n: nat| n <= max_len(size) && #[trigger] starts_at(data@, pos as int, enc_len(size, n))
                        implies n == v as nat by {
                        assert((n as u32).valid());
                    }
                    Ok((v as usize, end))
                },
                Err(e) => {
                    assert forall|n: nat| n <= max_len(size) && #[trigger] starts_at(data@, pos as int, enc_len(size, n))
                        implies false by {
                        assert((n as u32).valid());
                    }
                    Err(e)
                },
            }
        },
    }
}


/// Appends `items` with a length prefix of width `size`; fails exactly when
/// the sequence is too long for the prefix or an element is not valid.
pub fn encode_vec<T: Codec>(size: VecSize, buffer: &mut Vec<u8>, items: &Vec<T>) -> (r: Result<(), CodecError>)
    ensures
        r is Ok <==> vec_valid(size, items@),
        r is Ok ==> final(buffer)@ == old(buffer)@ + enc_vec(size, items@),
        r is Err ==> r == Err::<(), CodecError>(CodecError::EncodingTooLarge),
        r is Err ==> extends(old(buffer)@, final(buffer)@),
{
    let n = items.len();
    let r = encode_len(size, n, buffer);
    if r.is_err() {
        assert(old(buffer)@.subrange(0, old(buffer)@.len() as int) =~= old(buffer)@);
        return r;
    }
    let ghost start = buffer@;
    let mut i: usize = 0;
    assert(items@.take(0) =~= Seq::<T>::empty());
    while i < n
        invariant
            n == items@.len(),
            i <= n,
            n <= max_len(size),
            start == old(buffer)@ + enc_len(size, n as nat),
            buffer@ == start + enc_items(items@.take(i as int)),
            all_valid(items@.take(i as int)),
        decreases n - i,
    {
        let ghost before = buffer@;
        let r = items[i].encode(buffer);
        if r.is_err() {
            proof {
                assert(old(buffer)@.len() <= before.len());
                assert(before.subrange(0, old(buffer)@.len() as int) =~= old(buffer)@);
                lemma_extends_trans(old(buffer)@, before, buffer@);
                assert(!items@[i as int].valid());
            }
            return r;
        }
        proof {
            lemma_enc_items_push(items@.take(i as int), items@[i as int]);
            assert(items@.take(i + 1) =~= items@.take(i as int).push(items@[i as int]));
            assert(buffer@ =~= start + enc_items(items@.take(i + 1)));
            assert forall|j: int| 0 <= j < i + 1 implies #[trigger] items@.take(i + 1)[j].valid() by {
                if j < i {
                    assert(items@.take(i as int)[j].valid());
                }
            }
        }
        i += 1;
    }
    assert(items@.take(n as int) =~= items@);
    assert(buffer@ =~= old(buffer)@ + enc_vec(size, items@));
    Ok(())
}

/// Reads a sequence with a length prefix of width `size` at `pos`, returning
/// it with the position after it. Succeeds with `s` exactly when the input
/// holds the encoding of the valid sequence `s` there.
pub fn decode_vec<T: Codec>(size: VecSize, data: &Vec<u8>, pos: usize) -> (r: Result<(Vec<T>, usize), CodecError>)
    requires
        pos <= data@.len(),
    ensures
        r matches Ok((v, end)) ==> vec_valid(size, v@) && end == pos + enc_vec(size, v@).len()
            && starts_at(data@, pos as int, enc_vec(size, v@)),
        forall|s: Seq<T>| #[trigger] vec_valid(size, s) && starts_at(data@, pos as int, enc_vec(size, s))
            ==> (r matches Ok((v, end)) && v.deep_view() == deep_seq(s) && enc_items(v@) == enc_items(s)
                && end == pos + enc_vec(size, s).len()),
{
    let (n, start) = match decode_len(size, data, pos) {
        Ok(p) => p,
        Err(e) => {
            assert forall|s: Seq<T>| #[trigger] vec_valid(size, s) && starts_at(data@, pos as int, enc_vec(size, s))
                implies false by {
                lemma_starts_at_split(data@, pos as int, enc_len(size, s.len()), enc_items(s));
            }
            return Err(e);
        },
    };
    // Each element takes at least one byte.
    if n > data.len() - start {
        assert forall|s: Seq<T>| #[trigger] vec_valid(size, s) && starts_at(data@, pos as int, enc_vec(size, s))
            implies false by {
            lemma_starts_at_split(data@, pos as int, enc_len(size, s.len()), enc_items(s));
            lemma_enc_items_len(s);
        }
        return Err(CodecError::LengthExceedsInput);
    }
    let mut out: Vec<T> = Vec::new();
    let mut cur = start;
    let mut i: usize = 0;
    proof {
        assert(enc_items(out@) == Seq::<u8>::empty());
        assert(data@.subrange(start as int, start as int) =~= Seq::<u8>::empty());
        assert forall|s: Seq<T>| #[trigger] vec_valid(size, s) && starts_at(data@, pos as int, enc_vec(size, s))
            implies s.len() == n && deep_seq(out@) == deep_seq(s.take(0)) && enc_items(out@) == enc_items(s.take(0))
                && starts_at(data@, cur as int, enc_items(s.skip(0))) by {
            lemma_starts_at_split(data@, pos as int, enc_len(size, s.len()), enc_items(s));
            assert(s.skip(0) =~= s);
            assert(s.take(0) =~= out@);
        }
    }
    while i < n
        invariant
            pos <= start <= cur <= data@.len(),
            n <= max_len(size),
            start == pos + enc_len(size, n as nat).len(),
            starts_at(data@, pos as int, enc_len(size, n as nat)),
            i <= n,
            out@.len() == i,
            all_valid(out@),
            cur == start + enc_items(out@).len(),
            starts_at(data@, start as int, enc_items(out@)),
            forall|s: Seq<T>| #[trigger] vec_valid(size, s) && starts_at(data@, pos as int, enc_vec(size, s))
                ==> s.len() == n && deep_seq(out@) == deep_seq(s.take(i as int)) && enc_items(out@) == enc_items(s.take(i as int))
                    && starts_at(data@, cur as int, enc_items(s.skip(i as int))),
        decreases n - i,
    {
        let ghost old_out = out@;
        let ghost old_cur = cur;
        match T::decode(data, cur) {
            Ok((x, next)) => {
                proof {
                    lemma_enc_items_push(out@, x);
                    lemma_starts_at_split(data@, start as int, enc_items(out@), x.enc());
                    assert forall|s: Seq<T>| #[trigger] vec_valid(size, s) && starts_at(data@, pos as int, enc_vec(size, s))
                        implies s.len() == n && deep_seq(old_out.push(x)) == deep_seq(s.take(i + 1))
                            && enc_items(old_out.push(x)) == enc_items(s.take(i + 1))
                            && starts_at(data@, next as int, enc_items(s.skip(i + 1))) by {
                        let rest = s.skip(i as int);
                        assert(rest.drop_first() =~= s.skip(i + 1));
                        lemma_starts_at_split(data@, old_cur as int, rest[0].enc(), enc_items(rest.drop_first()));
                        assert(rest[0].valid());
                        assert(s.take(i + 1) =~= s.take(i as int).push(s[i as int]));
                        lemma_enc_items_push(s.take(i as int), s[i as int]);
                        assert(deep_seq(old_out.push(x)) =~= deep_seq(s.take(i + 1))) by {
                            assert(deep_seq(old_out) =~= deep_seq(s.take(i as int)));
                            assert forall|j: int| 0 <= j < i implies old_out[j].deep_view() == s[j].deep_view() by {
                                assert(deep_seq(old_out)[j] == deep_seq(s.take(i as int))[j]);
                            }
                        }
                    }
                    assert forall|j: int| 0 <= j < old_out.len() + 1 implies #[trigger] old_out.push(x)[j].valid() by {
                        if j < old_out.len() {
                            assert(old_out[j].valid());
                        }
                    }
                }
                out.push(x);
                cur = next;
            },
            Err(e) => {
                assert forall|s: Seq<T>| #[trigger] vec_valid(size, s) && starts_at(data@, pos as int, enc_vec(size, s))
                    implies false by {
                    let rest = s.skip(i as int);
                    lemma_starts_at_split(data@, old_cur as int, rest[0].enc(), enc_items(rest.drop_first()));
                    assert(rest[0].valid());
                }
                return Err(e);
            },
        }
        i += 1;
    }
    proof {
        lemma_starts_at_split(data@, pos as int, enc_len(size, n as nat), enc_items(out@));
        assert forall|s: Seq<T>| #[trigger] vec_valid(size, s) && starts_at(data@, pos as int, enc_vec(size, s))
            implies out.deep_view() == deep_seq(s) && enc_items(out@) == enc_items(s) by {
            assert(s.take(n as int) =~= s);
            assert(out.deep_view() =~= deep_seq(out@));
        }
    }
    Ok((out, cur))
}

} // verus!
