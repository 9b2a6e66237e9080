use vstd::prelude::*;

use crate::codec::{
    deep_seq, enc_vec, encode_vec, decode_vec, lemma_vec_prefix_free, starts_at, vec_valid, Codec, CodecError,
    VecSize,
};

use crate::config::MlsGroupConfig;

verus! {

/// A node of the application secret tree: one forward secret.
#[derive(Clone, Debug, PartialEq, Eq)]
pub struct ASTreeNode {
    pub secret: Vec<u8>,
}

impl DeepView for ASTreeNode {
    type V = Seq<u8>;

    open spec fn deep_view(&self) -> Seq<u8> {
        self.secret.deep_view()
    }
}

impl Codec for ASTreeNode {
    open spec fn valid(&self) -> bool {
        vec_valid(VecSize::VecU8, self.secret@)
    }

    open spec fn enc(&self) -> Seq<u8> {
        enc_vec(VecSize::VecU8, self.secret@)
    }

    proof fn lemma_enc_nonempty(&self) {
    }

    proof fn lemma_enc_prefix_free(&self, other: &Self, s: Seq<u8>, t: Seq<u8>) {
        lemma_vec_prefix_free(VecSize::VecU8, self.secret@, other.secret@, s, t);
        assert(self.secret.deep_view() =~= deep_seq(self.secret@));
        assert(other.secret.deep_view() =~= deep_seq(other.secret@));
    }

    fn encode(&self, buffer: &mut Vec<u8>) -> (r: Result<(), CodecError>) {
        let ghost b0 = buffer@;
        let r = encode_vec(VecSize::VecU8, buffer, &self.secret);
        if r.is_err() {
            return r;
        }
        assert(buffer@ =~= b0 + self.enc());
        Ok(())
    }

    fn decode(data: &Vec<u8>, pos: usize) -> (r: Result<(Self, usize), CodecError>) {
        let (secret, p0) = match decode_vec::<u8>(VecSize::VecU8, data, pos) {
            Ok(x) => x,
            Err(e) => {
                assert forall|v: Self| #[trigger] v.valid() && starts_at(data@, pos as int, v.enc()) implies false by {
                    assert(vec_valid(VecSize::VecU8, v.secret@));
                }
                return Err(e);
            },
        };
        let res = ASTreeNode { secret };
        proof {
            assert forall|v: Self| #[trigger] v.valid() && starts_at(data@, pos as int, v.enc()) implies res.deep_view() == v.deep_view() && res.enc() == v.enc() by {
                assert(vec_valid(VecSize::VecU8, v.secret@));
                assert(res.secret.deep_view().len() == res.secret@.len());
                assert(res.secret@.len() == v.secret@.len());
                assert(v.secret.deep_view() =~= deep_seq(v.secret@));
            }
        }
        Ok((res, p0))
    }
}

/// Why a message secret cannot be handed out.
#[derive(Clone, Copy, Debug, PartialEq, Eq, Structural)]
pub enum SecretTreeError {
    /// The generation was already consumed and its secret erased.
    SecretUnavailable,
    /// The generation lies further ahead than the sender ratchet allows.
    TooDistantInTheFuture,
}

/// The outcome of consuming `generation` on `leaf`, given the next unconsumed
/// generation of each leaf: a generation below the leaf's next one is gone; one
/// more than `max_forward` ahead of it is refused; otherwise the leaf's next
/// generation moves past it.
pub open spec fn spec_consume(next: Seq<u64>, leaf: int, generation: u32, max_forward: u32) -> Result<
    Seq<u64>,
    SecretTreeError,
> {
    if (generation as u64) < next[leaf] {
        Err(SecretTreeError::SecretUnavailable)
    } else if generation - next[leaf] > max_forward {
        Err(SecretTreeError::TooDistantInTheFuture)
    } else {
        Ok(next.update(leaf, (generation + 1) as u64))
    }
}

/// Generation bookkeeping of one epoch's secret tree: for each leaf, the next
/// generation whose secret has not been consumed. Every generation below it
/// has been erased.
pub struct GenerationTracker {
    pub next_generation: Vec<u64>,
    /// How far ahead of the next generation a request may reach.
    pub maximum_forward_distance: u32,
}

impl GenerationTracker {
    /// A tracker for `num_leaves` leaves, none of whose generations is consumed.
    pub fn new(num_leaves: u32, maximum_forward_distance: u32) -> (r: Self)
        ensures
            r.next_generation@ == Seq::new(num_leaves as nat, |_i: int| 0u64),
            r.maximum_forward_distance == maximum_forward_distance,
    {
        let mut next_generation: Vec<u64> = Vec::new();
        let mut i: u32 = 0;
        while i < num_leaves
            invariant
                i <= num_leaves,
                next_generation@ == Seq::new(i as nat, |_i: int| 0u64),
            decreases num_leaves - i,
        {
            next_generation.push(0);
            i += 1;
            assert(next_generation@ =~= Seq::new(i as nat, |_i: int| 0u64));
        }
        GenerationTracker { next_generation, maximum_forward_distance }
    }

    /// Consumes `generation` of `leaf`'s chain: fails with `SecretUnavailable`
    /// if it was already consumed, and with `TooDistantInTheFuture` if it lies
    /// beyond the forward window; otherwise it and every generation below it
    /// count as consumed.
    pub fn consume(&mut self, leaf: u32, generation: u32) -> (r: Result<(), SecretTreeError>)
        requires
            leaf < old(self).next_generation@.len(),
        ensures
            final(self).maximum_forward_distance == old(self).maximum_forward_distance,
            match spec_consume(old(self).next_generation@, leaf as int, generation, old(self).maximum_forward_distance) {
                Ok(next) => r is Ok && final(self).next_generation@ == next,
                Err(e) => r == Err::<(), SecretTreeError>(e) && final(self).next_generation@ == old(self).next_generation@,
            },
    {
        let next = self.next_generation[leaf as usize];
        if (generation as u64) < next {
            return Err(SecretTreeError::SecretUnavailable);
        }
        if generation as u64 - next > self.maximum_forward_distance as u64 {
            return Err(SecretTreeError::TooDistantInTheFuture);
        }
        self.next_generation.set(leaf as usize, generation as u64 + 1);
        Ok(())
    }
}

/// Once a generation has been consumed, asking for it again finds its secret
/// unavailable.
pub proof fn lemma_consumed_generation_unavailable(next: Seq<u64>, leaf: int, generation: u32, max_forward: u32)
    requires
        0 <= leaf < next.len(),
        spec_consume(next, leaf, generation, max_forward) is Ok,
    ensures
        spec_consume(spec_consume(next, leaf, generation, max_forward)->Ok_0, leaf, generation, max_forward)
            == Err::<Seq<u64>, SecretTreeError>(SecretTreeError::SecretUnavailable),
{
}

/// The secret trees of the current epoch and of up to `max_past_epochs` epochs
/// before it. Older ones are dropped as epochs advance.
pub struct EpochSecrets {
    pub max_past_epochs: usize,
    pub current_epoch: u64,
    /// One root secret per retained epoch, oldest first; the last belongs to
    /// the current epoch.
    pub secrets: Vec<ASTreeNode>,
}

impl EpochSecrets {
    /// The store's invariant: at least the current epoch is held, at most
    /// `max_past_epochs` before it, and none before epoch zero.
    pub open spec fn wf(&self) -> bool {
        &&& 1 <= self.secrets@.len() <= self.max_past_epochs + 1
        &&& self.secrets@.len() <= self.current_epoch + 1
    }

    /// The secret of `epoch` is still held.
    pub open spec fn retains(&self, epoch: u64) -> bool {
        epoch <= self.current_epoch && self.current_epoch - epoch < self.secrets@.len()
    }

    /// Position of `epoch`'s secret in `secrets`.
    pub open spec fn slot(&self, epoch: u64) -> int {
        self.secrets@.len() - 1 - (self.current_epoch - epoch)
    }

    /// A store holding only the secret of `epoch`.
    pub fn new(max_past_epochs: usize, epoch: u64, secret: ASTreeNode) -> (r: Self)
        requires
            max_past_epochs < usize::MAX,
        ensures
            r.wf(),
            r.max_past_epochs == max_past_epochs,
            r.current_epoch == epoch,
            r.secrets@ == seq![secret],
    {
        let mut secrets: Vec<ASTreeNode> = Vec::new();
        secrets.push(secret);
        EpochSecrets { max_past_epochs, current_epoch: epoch, secrets }
    }

    /// A store holding only the secret of `epoch`, keeping as many past
    /// epochs as `config` allows.
    pub fn from_config(config: &MlsGroupConfig, epoch: u64, secret: ASTreeNode) -> (r: Self)
        requires
            config.max_past_epochs < usize::MAX,
        ensures
            r.wf(),
            r.max_past_epochs == config.max_past_epochs,
            r.current_epoch == epoch,
            r.secrets@ == seq![secret],
    {
        Self::new(config.max_past_epochs(), epoch, secret)
    }

    /// Moves to the next epoch, whose secret is `secret`. The oldest secret is
    /// dropped when the store would otherwise exceed its window.
    pub fn advance(&mut self, secret: ASTreeNode)
        requires
            old(self).wf(),
            old(self).current_epoch < u64::MAX,
            old(self).max_past_epochs < usize::MAX,
        ensures
            final(self).wf(),
            final(self).max_past_epochs == old(self).max_past_epochs,
            final(self).current_epoch == old(self).current_epoch + 1,
            final(self).secrets@.len() == if old(self).secrets@.len() == old(self).max_past_epochs + 1 {
                old(self).secrets@.len()
            } else {
                old(self).secrets@.len() + 1
            },
            final(self).secrets@.last() == secret,
            forall|e: u64| #[trigger] final(self).retains(e) <==> (e == final(self).current_epoch || (old(self).retains(e)
                && final(self).current_epoch - e <= final(self).max_past_epochs)),
            forall|e: u64| e < final(self).current_epoch && #[trigger] final(self).retains(e)
                ==> final(self).secrets@[final(self).slot(e)] == old(self).secrets@[old(self).slot(e)],
    {
        self.secrets.push(secret);
        self.current_epoch = self.current_epoch + 1;
        if self.secrets.len() > self.max_past_epochs + 1 {
            let _dropped = self.secrets.remove(0);
        }
    }

    /// The secret of `epoch`, if it is still held.
    pub fn get(&self, epoch: u64) -> (r: Option<&ASTreeNode>)
        requires
            self.wf(),
        ensures
            r is Some <==> self.retains(epoch),
            r matches Some(s) ==> *s == self.secrets@[self.slot(epoch)],
    {
        if epoch > self.current_epoch || self.current_epoch - epoch >= self.secrets.len() as u64 {
            return None;
        }
        Some(&self.secrets[self.secrets.len() - 1 - (self.current_epoch - epoch) as usize])
    }
}

/// No held secret is older than the window: every retained epoch lies at most
/// `max_past_epochs` before the current one, and once the window is full the
/// oldest epoch in it is still held.
pub proof fn lemma_retention_window(s: EpochSecrets, e: u64)
    requires
        s.wf(),
    ensures
        s.retains(e) ==> s.current_epoch - e <= s.max_past_epochs,
        s.secrets@.len() == s.max_past_epochs + 1 ==> s.retains((s.current_epoch - s.max_past_epochs) as u64),
        e < s.current_epoch - s.max_past_epochs ==> !s.retains(e),
{
}

} // verus!
