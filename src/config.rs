use vstd::prelude::*;

use crate::codec::{lemma_cancel, lemma_extends_append, lemma_extends_trans, lemma_starts_at_split, starts_at, Codec, CodecError};

verus! {

/// The two framings a handshake message can travel in.
#[derive(Clone, Copy, Debug, PartialEq, Eq, Structural)]
pub enum WireFormat {
    /// Authenticated but unencrypted framing.
    PublicMessage,
    /// Encrypted framing.
    PrivateMessage,
}

/// Defines what wire format is acceptable for incoming handshake messages.
/// Application messages are always encrypted.
#[derive(Clone, Copy, Debug, PartialEq, Eq, Structural)]
pub enum IncomingWireFormatPolicy {
    /// Handshake messages must always be private messages.
    AlwaysCiphertext,
    /// Handshake messages must always be public messages.
    AlwaysPlaintext,
    /// Handshake messages may be either.
    Mixed,
}

/// Whether `policy` admits an incoming handshake message framed as `wf`.
pub open spec fn accepts(policy: IncomingWireFormatPolicy, wf: WireFormat) -> bool {
    match policy {
        IncomingWireFormatPolicy::AlwaysCiphertext => wf == WireFormat::PrivateMessage,
        IncomingWireFormatPolicy::AlwaysPlaintext => wf == WireFormat::PublicMessage,
        IncomingWireFormatPolicy::Mixed => true,
    }
}

impl IncomingWireFormatPolicy {
    /// Whether a handshake message framed as `wire_format` may be accepted.
    pub fn is_compatible_with(&self, wire_format: WireFormat) -> (r: bool)
        ensures
            r == accepts(*self, wire_format),
    {
        match self {
            IncomingWireFormatPolicy::AlwaysCiphertext => wire_format == WireFormat::PrivateMessage,
            IncomingWireFormatPolicy::AlwaysPlaintext => wire_format == WireFormat::PublicMessage,
            IncomingWireFormatPolicy::Mixed => {
                wire_format == WireFormat::PrivateMessage || wire_format == WireFormat::PublicMessage
            },
        }
    }
}

/// Defines what wire format is used for outgoing handshake messages.
/// Application messages are always encrypted.
#[derive(Clone, Copy, Debug, PartialEq, Eq, Structural)]
pub enum OutgoingWireFormatPolicy {
    /// Handshake messages are always sent as private messages.
    AlwaysCiphertext,
    /// Handshake messages are always sent as public messages.
    AlwaysPlaintext,
}

/// The framing that an outgoing policy selects.
pub open spec fn chosen_format(policy: OutgoingWireFormatPolicy) -> WireFormat {
    match policy {
        OutgoingWireFormatPolicy::AlwaysCiphertext => WireFormat::PrivateMessage,
        OutgoingWireFormatPolicy::AlwaysPlaintext => WireFormat::PublicMessage,
    }
}

impl From<OutgoingWireFormatPolicy> for WireFormat {
    fn from(outgoing: OutgoingWireFormatPolicy) -> (r: WireFormat) {
        match outgoing {
            OutgoingWireFormatPolicy::AlwaysCiphertext => WireFormat::PrivateMessage,
            OutgoingWireFormatPolicy::AlwaysPlaintext => WireFormat::PublicMessage,
        }
    }
}

impl vstd::std_specs::convert::FromSpecImpl<OutgoingWireFormatPolicy> for WireFormat {
    open spec fn obeys_from_spec() -> bool {
        true
    }

    open spec fn from_spec(v: OutgoingWireFormatPolicy) -> WireFormat {
        chosen_format(v)
    }
}

/// A pair of policies: one for outgoing and one for incoming handshake messages.
#[derive(Clone, Copy, Debug, PartialEq, Eq, Structural)]
pub struct WireFormatPolicy {
    pub outgoing: OutgoingWireFormatPolicy,
    pub incoming: IncomingWireFormatPolicy,
}

impl WireFormatPolicy {
    /// Creates a policy from its outgoing and incoming halves.
    pub fn new(outgoing: OutgoingWireFormatPolicy, incoming: IncomingWireFormatPolicy) -> (r: Self)
        ensures
            r.outgoing == outgoing,
            r.incoming == incoming,
    {
        Self { outgoing, incoming }
    }

    /// The outgoing half of the policy.
    pub fn outgoing(&self) -> (r: OutgoingWireFormatPolicy)
        ensures
            r == self.outgoing,
    {
        self.outgoing
    }

    /// The incoming half of the policy.
    pub fn incoming(&self) -> (r: IncomingWireFormatPolicy)
        ensures
            r == self.incoming,
    {
        self.incoming
    }

    /// Incoming and outgoing handshake messages are always public.
    pub fn pure_plaintext() -> (r: Self)
        ensures
            r.outgoing == OutgoingWireFormatPolicy::AlwaysPlaintext,
            r.incoming == IncomingWireFormatPolicy::AlwaysPlaintext,
    {
        Self::new(OutgoingWireFormatPolicy::AlwaysPlaintext, IncomingWireFormatPolicy::AlwaysPlaintext)
    }

    pub open spec fn pure_ciphertext_spec() -> Self {
        WireFormatPolicy {
            outgoing: OutgoingWireFormatPolicy::AlwaysCiphertext,
            incoming: IncomingWireFormatPolicy::AlwaysCiphertext,
        }
    }

    /// Incoming and outgoing handshake messages are always private.
    pub fn pure_ciphertext() -> (r: Self)
        ensures
            r.outgoing == OutgoingWireFormatPolicy::AlwaysCiphertext,
            r.incoming == IncomingWireFormatPolicy::AlwaysCiphertext,
    {
        Self::new(OutgoingWireFormatPolicy::AlwaysCiphertext, IncomingWireFormatPolicy::AlwaysCiphertext)
    }

    /// Incoming messages may be of either framing; outgoing ones are public.
    pub fn mixed_plaintext() -> (r: Self)
        ensures
            r.outgoing == OutgoingWireFormatPolicy::AlwaysPlaintext,
            r.incoming == IncomingWireFormatPolicy::Mixed,
    {
        Self::new(OutgoingWireFormatPolicy::AlwaysPlaintext, IncomingWireFormatPolicy::Mixed)
    }

    /// Incoming messages may be of either framing; outgoing ones are private.
    pub fn mixed_ciphertext() -> (r: Self)
        ensures
            r.outgoing == OutgoingWireFormatPolicy::AlwaysCiphertext,
            r.incoming == IncomingWireFormatPolicy::Mixed,
    {
        Self::new(OutgoingWireFormatPolicy::AlwaysCiphertext, IncomingWireFormatPolicy::Mixed)
    }

    /// All valid policy combinations.
    pub fn all() -> (r: [WireFormatPolicy; 4])
        ensures
            r@ == seq![
                WireFormatPolicy { outgoing: OutgoingWireFormatPolicy::AlwaysPlaintext, incoming: IncomingWireFormatPolicy::AlwaysPlaintext },
                WireFormatPolicy { outgoing: OutgoingWireFormatPolicy::AlwaysCiphertext, incoming: IncomingWireFormatPolicy::AlwaysCiphertext },
                WireFormatPolicy { outgoing: OutgoingWireFormatPolicy::AlwaysPlaintext, incoming: IncomingWireFormatPolicy::Mixed },
                WireFormatPolicy { outgoing: OutgoingWireFormatPolicy::AlwaysCiphertext, incoming: IncomingWireFormatPolicy::Mixed },
            ],
    {
        let r = [Self::pure_plaintext(), Self::pure_ciphertext(), Self::mixed_plaintext(), Self::mixed_ciphertext()];
        assert(r@ =~= seq![r[0], r[1], r[2], r[3]]);
        r
    }
}

impl Default for WireFormatPolicy {
    /// Handshake messages are always private by default.
    fn default() -> (r: Self)
        ensures
            r.outgoing == OutgoingWireFormatPolicy::AlwaysCiphertext,
            r.incoming == IncomingWireFormatPolicy::AlwaysCiphertext,
    {
        Self::pure_ciphertext()
    }
}


/// A ciphersuite, by its registered two-byte identifier.
#[derive(Clone, Copy, Debug, PartialEq, Eq, Structural)]
pub struct Ciphersuite {
    pub id: u16,
}

/// Identifier of the ciphersuite used when none is chosen.
pub const DEFAULT_CIPHERSUITE_ID: u16 = 1;

/// Identifier of the protocol version used when none is chosen.
pub const DEFAULT_PROTOCOL_VERSION: u16 = 1;

/// The ciphersuite together with the protocol version.
#[derive(Clone, Copy, Debug, PartialEq, Eq, Structural)]
pub struct CryptoConfig {
    pub ciphersuite: Ciphersuite,
    pub version: u16,
}

impl CryptoConfig {
    /// A configuration for `ciphersuite` at the default protocol version.
    pub fn with_default_version(ciphersuite: Ciphersuite) -> (r: Self)
        ensures
            r.ciphersuite == ciphersuite,
            r.version == DEFAULT_PROTOCOL_VERSION,
    {
        CryptoConfig { ciphersuite, version: DEFAULT_PROTOCOL_VERSION }
    }
}

impl Default for CryptoConfig {
    fn default() -> (r: Self)
        ensures
            r.ciphersuite.id == DEFAULT_CIPHERSUITE_ID,
            r.version == DEFAULT_PROTOCOL_VERSION,
    {
        Self::with_default_version(Ciphersuite { id: DEFAULT_CIPHERSUITE_ID })
    }
}

/// Extension, proposal and credential types that every member must support.
#[derive(Clone, Debug, PartialEq, Eq)]
pub struct RequiredCapabilitiesExtension {
    pub extension_types: Vec<u16>,
    pub proposal_types: Vec<u16>,
    pub credential_types: Vec<u16>,
}

impl Default for RequiredCapabilitiesExtension {
    fn default() -> (r: Self)
        ensures
            r.extension_types@.len() == 0,
            r.proposal_types@.len() == 0,
            r.credential_types@.len() == 0,
    {
        RequiredCapabilitiesExtension {
            extension_types: Vec::new(),
            proposal_types: Vec::new(),
            credential_types: Vec::new(),
        }
    }
}

/// A sender outside the group that may send proposals to it.
#[derive(Clone, Debug, PartialEq, Eq)]
pub struct ExternalSender {
    pub signature_key: Vec<u8>,
    pub identity: Vec<u8>,
}

/// The senders outside the group that may send remove proposals.
#[derive(Clone, Debug, PartialEq, Eq)]
pub struct ExternalSendersExtension {
    pub senders: Vec<ExternalSender>,
}

impl Default for ExternalSendersExtension {
    fn default() -> (r: Self)
        ensures
            r.senders@.len() == 0,
    {
        ExternalSendersExtension { senders: Vec::new() }
    }
}

/// Out-of-order tolerance used when none is chosen.
pub const DEFAULT_OUT_OF_ORDER_TOLERANCE: u32 = 5;

/// Maximum forward distance used when none is chosen.
pub const DEFAULT_MAXIMUM_FORWARD_DISTANCE: u32 = 1000;

/// Bounds on the generations that a sender ratchet may be asked for: how far
/// behind the newest one and how far ahead of it.
#[derive(Clone, Copy, Debug, PartialEq, Eq, Structural)]
pub struct SenderRatchetConfiguration {
    pub out_of_order_tolerance: u32,
    pub maximum_forward_distance: u32,
}

impl SenderRatchetConfiguration {
    pub fn new(out_of_order_tolerance: u32, maximum_forward_distance: u32) -> (r: Self)
        ensures
            r.out_of_order_tolerance == out_of_order_tolerance,
            r.maximum_forward_distance == maximum_forward_distance,
    {
        SenderRatchetConfiguration { out_of_order_tolerance, maximum_forward_distance }
    }
}

impl Default for SenderRatchetConfiguration {
    fn default() -> (r: Self)
        ensures
            r.out_of_order_tolerance == DEFAULT_OUT_OF_ORDER_TOLERANCE,
            r.maximum_forward_distance == DEFAULT_MAXIMUM_FORWARD_DISTANCE,
    {
        Self::new(DEFAULT_OUT_OF_ORDER_TOLERANCE, DEFAULT_MAXIMUM_FORWARD_DISTANCE)
    }
}

/// Validity window of the own leaf, in seconds since the Unix epoch.
#[derive(Clone, Copy, Debug, PartialEq, Eq, Structural)]
pub struct Lifetime {
    pub not_before: u64,
    pub not_after: u64,
}

impl Default for Lifetime {
    /// The unbounded window.
    fn default() -> (r: Self)
        ensures
            r.not_before == 0,
            r.not_after == u64::MAX,
    {
        Lifetime { not_before: 0, not_after: u64::MAX }
    }
}

/// The configuration parameters of a group session.
#[derive(Clone, Debug, PartialEq, Eq)]
pub struct MlsGroupConfig {
    /// Wire format policy for outgoing and incoming handshake messages.
    pub wire_format_policy: WireFormatPolicy,
    /// Size of padding in bytes.
    pub padding_size: usize,
    /// Number of past epochs for which application messages can be decrypted.
    pub max_past_epochs: usize,
    /// Number of resumption secrets to keep.
    pub number_of_resumption_psks: usize,
    /// Whether the ratchet tree extension is used.
    pub use_ratchet_tree_extension: bool,
    /// Required capabilities.
    pub required_capabilities: RequiredCapabilitiesExtension,
    /// Senders authorized to send external remove proposals.
    pub external_senders: ExternalSendersExtension,
    /// Sender ratchet configuration.
    pub sender_ratchet_configuration: SenderRatchetConfiguration,
    /// Lifetime of the own leaf node.
    pub lifetime: Lifetime,
    /// Ciphersuite and protocol version.
    pub crypto_config: CryptoConfig,
}

/// The configuration that a fresh builder holds.
pub open spec fn is_default_config(c: MlsGroupConfig) -> bool {
    &&& c.wire_format_policy == WireFormatPolicy {
        outgoing: OutgoingWireFormatPolicy::AlwaysCiphertext,
        incoming: IncomingWireFormatPolicy::AlwaysCiphertext,
    }
    &&& c.padding_size == 0
    &&& c.max_past_epochs == 0
    &&& c.number_of_resumption_psks == 0
    &&& !c.use_ratchet_tree_extension
    &&& c.required_capabilities.extension_types@.len() == 0
    &&& c.required_capabilities.proposal_types@.len() == 0
    &&& c.required_capabilities.credential_types@.len() == 0
    &&& c.external_senders.senders@.len() == 0
    &&& c.sender_ratchet_configuration == SenderRatchetConfiguration {
        out_of_order_tolerance: DEFAULT_OUT_OF_ORDER_TOLERANCE,
        maximum_forward_distance: DEFAULT_MAXIMUM_FORWARD_DISTANCE,
    }
    &&& c.lifetime == Lifetime { not_before: 0, not_after: u64::MAX }
    &&& c.crypto_config == CryptoConfig {
        ciphersuite: Ciphersuite { id: DEFAULT_CIPHERSUITE_ID },
        version: DEFAULT_PROTOCOL_VERSION,
    }
}

impl Default for MlsGroupConfig {
    fn default() -> (r: Self)
        ensures
            is_default_config(r),
    {
        MlsGroupConfig {
            wire_format_policy: WireFormatPolicy::default(),
            padding_size: 0,
            max_past_epochs: 0,
            number_of_resumption_psks: 0,
            use_ratchet_tree_extension: false,
            required_capabilities: RequiredCapabilitiesExtension::default(),
            external_senders: ExternalSendersExtension::default(),
            sender_ratchet_configuration: SenderRatchetConfiguration::default(),
            lifetime: Lifetime::default(),
            crypto_config: CryptoConfig::default(),
        }
    }
}

impl MlsGroupConfig {
    /// A builder holding the default configuration.
    pub fn builder() -> (r: MlsGroupConfigBuilder)
        ensures
            is_default_config(r.config),
    {
        MlsGroupConfigBuilder::new()
    }

    pub fn wire_format_policy(&self) -> (r: WireFormatPolicy)
        ensures
            r == self.wire_format_policy,
    {
        self.wire_format_policy
    }

    pub fn padding_size(&self) -> (r: usize)
        ensures
            r == self.padding_size,
    {
        self.padding_size
    }

    pub fn max_past_epochs(&self) -> (r: usize)
        ensures
            r == self.max_past_epochs,
    {
        self.max_past_epochs
    }

    pub fn number_of_resumption_psks(&self) -> (r: usize)
        ensures
            r == self.number_of_resumption_psks,
    {
        self.number_of_resumption_psks
    }

    pub fn use_ratchet_tree_extension(&self) -> (r: bool)
        ensures
            r == self.use_ratchet_tree_extension,
    {
        self.use_ratchet_tree_extension
    }

    pub fn required_capabilities(&self) -> (r: &RequiredCapabilitiesExtension)
        ensures
            *r == self.required_capabilities,
    {
        &self.required_capabilities
    }

    pub fn sender_ratchet_configuration(&self) -> (r: &SenderRatchetConfiguration)
        ensures
            *r == self.sender_ratchet_configuration,
    {
        &self.sender_ratchet_configuration
    }

    pub fn external_senders(&self) -> (r: &ExternalSendersExtension)
        ensures
            *r == self.external_senders,
    {
        &self.external_senders
    }

    pub fn lifetime(&self) -> (r: &Lifetime)
        ensures
            *r == self.lifetime,
    {
        &self.lifetime
    }

    pub fn crypto_config(&self) -> (r: &CryptoConfig)
        ensures
            *r == self.crypto_config,
    {
        &self.crypto_config
    }

    /// The default configuration with public outgoing handshakes, mixed
    /// incoming ones and the given ciphersuite.
    pub fn test_default(ciphersuite: Ciphersuite) -> (r: Self)
        ensures
            r.wire_format_policy == (WireFormatPolicy {
                outgoing: OutgoingWireFormatPolicy::AlwaysPlaintext,
                incoming: IncomingWireFormatPolicy::Mixed,
            }),
            r.crypto_config == (CryptoConfig { ciphersuite, version: DEFAULT_PROTOCOL_VERSION }),
            is_default_config(
                (MlsGroupConfig {
                    wire_format_policy: WireFormatPolicy::pure_ciphertext_spec(),
                    crypto_config: CryptoConfig {
                        ciphersuite: Ciphersuite { id: DEFAULT_CIPHERSUITE_ID },
                        version: DEFAULT_PROTOCOL_VERSION,
                    },
                    ..r
                }),
            ),
    {
        Self::builder().wire_format_policy(
            WireFormatPolicy::new(OutgoingWireFormatPolicy::AlwaysPlaintext, IncomingWireFormatPolicy::Mixed),
        ).crypto_config(CryptoConfig::with_default_version(ciphersuite)).build()
    }
}

/// Builder for an [`MlsGroupConfig`].
pub struct MlsGroupConfigBuilder {
    pub config: MlsGroupConfig,
}

impl Default for MlsGroupConfigBuilder {
    fn default() -> (r: Self)
        ensures
            is_default_config(r.config),
    {
        Self::new()
    }
}

impl MlsGroupConfigBuilder {
    /// Creates a builder with default values.
    pub fn new() -> (r: Self)
        ensures
            is_default_config(r.config),
    {
        MlsGroupConfigBuilder { config: MlsGroupConfig::default() }
    }

    pub fn wire_format_policy(self, wire_format_policy: WireFormatPolicy) -> (r: Self)
        ensures
            r.config == (MlsGroupConfig { wire_format_policy, ..self.config }),
    {
        MlsGroupConfigBuilder { config: MlsGroupConfig { wire_format_policy, ..self.config } }
    }

    pub fn padding_size(self, padding_size: usize) -> (r: Self)
        ensures
            r.config == (MlsGroupConfig { padding_size, ..self.config }),
    {
        MlsGroupConfigBuilder { config: MlsGroupConfig { padding_size, ..self.config } }
    }

    /// Sets how many past epochs keep their message secrets. Each one kept
    /// weakens forward secrecy: keep the number as low as delivery allows.
    pub fn max_past_epochs(self, max_past_epochs: usize) -> (r: Self)
        ensures
            r.config == (MlsGroupConfig { max_past_epochs, ..self.config }),
    {
        MlsGroupConfigBuilder { config: MlsGroupConfig { max_past_epochs, ..self.config } }
    }

    pub fn number_of_resumption_psks(self, number_of_resumption_psks: usize) -> (r: Self)
        ensures
            r.config == (MlsGroupConfig { number_of_resumption_psks, ..self.config }),
    {
        MlsGroupConfigBuilder { config: MlsGroupConfig { number_of_resumption_psks, ..self.config } }
    }

    pub fn use_ratchet_tree_extension(self, use_ratchet_tree_extension: bool) -> (r: Self)
        ensures
            r.config == (MlsGroupConfig { use_ratchet_tree_extension, ..self.config }),
    {
        MlsGroupConfigBuilder { config: MlsGroupConfig { use_ratchet_tree_extension, ..self.config } }
    }

    pub fn required_capabilities(self, required_capabilities: RequiredCapabilitiesExtension) -> (r: Self)
        ensures
            r.config == (MlsGroupConfig { required_capabilities, ..self.config }),
    {
        MlsGroupConfigBuilder { config: MlsGroupConfig { required_capabilities, ..self.config } }
    }

    pub fn sender_ratchet_configuration(
        self,
        sender_ratchet_configuration: SenderRatchetConfiguration,
    ) -> (r: Self)
        ensures
            r.config == (MlsGroupConfig { sender_ratchet_configuration, ..self.config }),
    {
        MlsGroupConfigBuilder { config: MlsGroupConfig { sender_ratchet_configuration, ..self.config } }
    }

    pub fn lifetime(self, lifetime: Lifetime) -> (r: Self)
        ensures
            r.config == (MlsGroupConfig { lifetime, ..self.config }),
    {
        MlsGroupConfigBuilder { config: MlsGroupConfig { lifetime, ..self.config } }
    }

    pub fn crypto_config(self, config: CryptoConfig) -> (r: Self)
        ensures
            r.config == (MlsGroupConfig { crypto_config: config, ..self.config }),
    {
        MlsGroupConfigBuilder { config: MlsGroupConfig { crypto_config: config, ..self.config } }
    }

    pub fn external_senders(self, external_senders: ExternalSendersExtension) -> (r: Self)
        ensures
            r.config == (MlsGroupConfig { external_senders, ..self.config }),
    {
        MlsGroupConfigBuilder { config: MlsGroupConfig { external_senders, ..self.config } }
    }

    /// The configuration built so far.
    pub fn build(self) -> (r: MlsGroupConfig)
        ensures
            r == self.config,
    {
        self.config
    }
}

/// The one-byte discriminant of an outgoing policy.
pub open spec fn outgoing_tag(v: OutgoingWireFormatPolicy) -> u8 {
    match v {
        OutgoingWireFormatPolicy::AlwaysCiphertext => 0,
        OutgoingWireFormatPolicy::AlwaysPlaintext => 1,
    }
}

impl DeepView for OutgoingWireFormatPolicy {
    type V = OutgoingWireFormatPolicy;

    open spec fn deep_view(&self) -> OutgoingWireFormatPolicy {
        *self
    }
}

impl Codec for OutgoingWireFormatPolicy {
    open spec fn valid(&self) -> bool {
        true
    }

    open spec fn enc(&self) -> Seq<u8> {
        seq![outgoing_tag(*self)]
    }

    proof fn lemma_enc_nonempty(&self) {
    }

    proof fn lemma_enc_prefix_free(&self, other: &Self, s: Seq<u8>, t: Seq<u8>) {
        assert((self.enc() + s)[0] == self.enc()[0] && (other.enc() + t)[0] == other.enc()[0]);
        assert(self.enc()[0] == other.enc()[0]);
    }

    fn encode(&self, buffer: &mut Vec<u8>) -> (r: Result<(), CodecError>) {
        let tag: u8 = match self {
            OutgoingWireFormatPolicy::AlwaysCiphertext => 0,
            OutgoingWireFormatPolicy::AlwaysPlaintext => 1,
        };
        tag.encode(buffer)
    }

    fn decode(data: &Vec<u8>, pos: usize) -> (r: Result<(Self, usize), CodecError>) {
        let (tag, end) = match u8::decode(data, pos) {
            Ok(x) => x,
            Err(e) => {
                assert forall|v: Self| #[trigger] v.valid() && starts_at(data@, pos as int, v.enc()) implies false by {
                    assert(outgoing_tag(v).valid());
                }
                return Err(e);
            },
        };
        let x = if tag == 0 {
            OutgoingWireFormatPolicy::AlwaysCiphertext
        } else if tag == 1 {
            OutgoingWireFormatPolicy::AlwaysPlaintext
        } else {
            assert forall|v: Self| #[trigger] v.valid() && starts_at(data@, pos as int, v.enc()) implies false by {
                assert(outgoing_tag(v).valid());
            }
            return Err(CodecError::UnknownValue);
        };
        assert forall|v: Self| #[trigger] v.valid() && starts_at(data@, pos as int, v.enc()) implies v == x by {
            assert(outgoing_tag(v).valid());
        }
        Ok((x, end))
    }
}

/// The one-byte discriminant of an incoming policy.
pub open spec fn incoming_tag(v: IncomingWireFormatPolicy) -> u8 {
    match v {
        IncomingWireFormatPolicy::AlwaysCiphertext => 0,
        IncomingWireFormatPolicy::AlwaysPlaintext => 1,
        IncomingWireFormatPolicy::Mixed => 2,
    }
}

impl DeepView for IncomingWireFormatPolicy {
    type V = IncomingWireFormatPolicy;

    open spec fn deep_view(&self) -> IncomingWireFormatPolicy {
        *self
    }
}

impl Codec for IncomingWireFormatPolicy {
    open spec fn valid(&self) -> bool {
        true
    }

    open spec fn enc(&self) -> Seq<u8> {
        seq![incoming_tag(*self)]
    }

    proof fn lemma_enc_nonempty(&self) {
    }

    proof fn lemma_enc_prefix_free(&self, other: &Self, s: Seq<u8>, t: Seq<u8>) {
        assert((self.enc() + s)[0] == self.enc()[0] && (other.enc() + t)[0] == other.enc()[0]);
        assert(self.enc()[0] == other.enc()[0]);
    }

    fn encode(&self, buffer: &mut Vec<u8>) -> (r: Result<(), CodecError>) {
        let tag: u8 = match self {
            IncomingWireFormatPolicy::AlwaysCiphertext => 0,
            IncomingWireFormatPolicy::AlwaysPlaintext => 1,
            IncomingWireFormatPolicy::Mixed => 2,
        };
        tag.encode(buffer)
    }

    fn decode(data: &Vec<u8>, pos: usize) -> (r: Result<(Self, usize), CodecError>) {
        let (tag, end) = match u8::decode(data, pos) {
            Ok(x) => x,
            Err(e) => {
                assert forall|v: Self| #[trigger] v.valid() && starts_at(data@, pos as int, v.enc()) implies false by {
                    assert(incoming_tag(v).valid());
                }
                return Err(e);
            },
        };
        let x = if tag == 0 {
            IncomingWireFormatPolicy::AlwaysCiphertext
        } else if tag == 1 {
            IncomingWireFormatPolicy::AlwaysPlaintext
        } else if tag == 2 {
            IncomingWireFormatPolicy::Mixed
        } else {
            assert forall|v: Self| #[trigger] v.valid() && starts_at(data@, pos as int, v.enc()) implies false by {
                assert(incoming_tag(v).valid());
            }
            return Err(CodecError::UnknownValue);
        };
        assert forall|v: Self| #[trigger] v.valid() && starts_at(data@, pos as int, v.enc()) implies v == x by {
            assert(incoming_tag(v).valid());
        }
        Ok((x, end))
    }
}

impl DeepView for WireFormatPolicy {
    type V = (OutgoingWireFormatPolicy, IncomingWireFormatPolicy);

    open spec fn deep_view(&self) -> (OutgoingWireFormatPolicy, IncomingWireFormatPolicy) {
        (self.outgoing.deep_view(), self.incoming.deep_view())
    }
}

impl Codec for WireFormatPolicy {
    open spec fn valid(&self) -> bool {
        self.outgoing.valid() && self.incoming.valid()
    }

    open spec fn enc(&self) -> Seq<u8> {
        self.outgoing.enc() + self.incoming.enc()
    }

    proof fn lemma_enc_nonempty(&self) {
        self.outgoing.lemma_enc_nonempty();
    }

    proof fn lemma_enc_prefix_free(&self, other: &Self, s: Seq<u8>, t: Seq<u8>) {
        let s1 = self.incoming.enc() + s;
        let t1 = other.incoming.enc() + t;
        assert(self.enc() + s =~= self.outgoing.enc() + s1);
        assert(other.enc() + t =~= other.outgoing.enc() + t1);
        self.outgoing.lemma_enc_prefix_free(&other.outgoing, s1, t1);
        lemma_cancel(self.outgoing.enc(), s1, t1);
        self.incoming.lemma_enc_prefix_free(&other.incoming, s, t);
    }

    fn encode(&self, buffer: &mut Vec<u8>) -> (r: Result<(), CodecError>) {
        let ghost b0 = buffer@;
        let r = self.outgoing.encode(buffer);
        if r.is_err() {
            return r;
        }
        let ghost b1 = buffer@;
        let r = self.incoming.encode(buffer);
        if r.is_err() {
            proof {
                assert(b1 =~= b0 + b1.subrange(b0.len() as int, b1.len() as int));
                lemma_extends_append(b0, b1.subrange(b0.len() as int, b1.len() as int));
                lemma_extends_trans(b0, b1, buffer@);
            }
            return r;
        }
        assert(buffer@ =~= b0 + self.enc());
        Ok(())
    }

    fn decode(data: &Vec<u8>, pos: usize) -> (r: Result<(Self, usize), CodecError>) {
        let (outgoing, p0) = match OutgoingWireFormatPolicy::decode(data, pos) {
            Ok(x) => x,
            Err(e) => {
                assert forall|v: Self| #[trigger] v.valid() && starts_at(data@, pos as int, v.enc()) implies false by {
                    lemma_starts_at_split(data@, pos as int, v.outgoing.enc(), v.incoming.enc());
                    assert(v.outgoing.valid());
                }
                return Err(e);
            },
        };
        let (incoming, p1) = match IncomingWireFormatPolicy::decode(data, p0) {
            Ok(x) => x,
            Err(e) => {
                assert forall|v: Self| #[trigger] v.valid() && starts_at(data@, pos as int, v.enc()) implies false by {
                    lemma_starts_at_split(data@, pos as int, v.outgoing.enc(), v.incoming.enc());
                    assert(v.outgoing.valid());
                    assert(v.incoming.valid());
                }
                return Err(e);
            },
        };
        let res = WireFormatPolicy { outgoing, incoming };
        proof {
            lemma_starts_at_split(data@, pos as int, res.outgoing.enc(), res.incoming.enc());
            assert forall|v: Self| #[trigger] v.valid() && starts_at(data@, pos as int, v.enc()) implies res.deep_view() == v.deep_view() && res.enc() == v.enc() by {
                lemma_starts_at_split(data@, pos as int, v.outgoing.enc(), v.incoming.enc());
                assert(v.outgoing.valid());
                assert(v.incoming.valid());
            }
        }
        Ok((res, p1))
    }
}

impl DeepView for Ciphersuite {
    type V = u16;

    open spec fn deep_view(&self) -> u16 {
        self.id.deep_view()
    }
}

impl Codec for Ciphersuite {
    open spec fn valid(&self) -> bool {
        self.id.valid()
    }

    open spec fn enc(&self) -> Seq<u8> {
        self.id.enc()
    }

    proof fn lemma_enc_nonempty(&self) {
        self.id.lemma_enc_nonempty();
    }

    proof fn lemma_enc_prefix_free(&self, other: &Self, s: Seq<u8>, t: Seq<u8>) {
        self.id.lemma_enc_prefix_free(&other.id, s, t);
    }

    fn encode(&self, buffer: &mut Vec<u8>) -> (r: Result<(), CodecError>) {
        let ghost b0 = buffer@;
        let r = self.id.encode(buffer);
        if r.is_err() {
            return r;
        }
        assert(buffer@ =~= b0 + self.enc());
        Ok(())
    }

    fn decode(data: &Vec<u8>, pos: usize) -> (r: Result<(Self, usize), CodecError>) {
        let (id, p0) = match u16::decode(data, pos) {
            Ok(x) => x,
            Err(e) => {
                assert forall|v: Self| #[trigger] v.valid() && starts_at(data@, pos as int, v.enc()) implies false by {
                    assert(v.id.valid());
                }
                return Err(e);
            },
        };
        let res = Ciphersuite { id };
        proof {
            assert forall|v: Self| #[trigger] v.valid() && starts_at(data@, pos as int, v.enc()) implies res.deep_view() == v.deep_view() && res.enc() == v.enc() by {
                assert(v.id.valid());
            }
        }
        Ok((res, p0))
    }
}

} // verus!
