use mls_tree::codec::Codec;
use mls_tree::config::{
    Ciphersuite, CryptoConfig, ExternalSender, ExternalSendersExtension, IncomingWireFormatPolicy, Lifetime,
    MlsGroupConfig, MlsGroupConfigBuilder, OutgoingWireFormatPolicy, RequiredCapabilitiesExtension,
    SenderRatchetConfiguration, WireFormat, WireFormatPolicy,
};

#[test]
fn mixed_ciphertext_policy_scenario() {
    let policy = WireFormatPolicy::new(OutgoingWireFormatPolicy::AlwaysCiphertext, IncomingWireFormatPolicy::Mixed);
    let mut buf = Vec::new();
    policy.encode(&mut buf).unwrap();
    assert_eq!(buf, vec![0, 2]);
    let (decoded, end) = WireFormatPolicy::decode(&buf, 0).unwrap();
    assert_eq!(end, 2);
    assert_eq!(decoded, policy);
    assert!(decoded.incoming().is_compatible_with(WireFormat::PrivateMessage));
    assert!(decoded.incoming().is_compatible_with(WireFormat::PublicMessage));
    assert_eq!(WireFormat::from(decoded.outgoing()), WireFormat::PrivateMessage);
}

#[test]
fn incoming_policy_compatibility() {
    let c = IncomingWireFormatPolicy::AlwaysCiphertext;
    assert!(c.is_compatible_with(WireFormat::PrivateMessage));
    assert!(!c.is_compatible_with(WireFormat::PublicMessage));
    let p = IncomingWireFormatPolicy::AlwaysPlaintext;
    assert!(p.is_compatible_with(WireFormat::PublicMessage));
    assert!(!p.is_compatible_with(WireFormat::PrivateMessage));
}

#[test]
fn outgoing_policy_chooses_framing() {
    assert_eq!(WireFormat::from(OutgoingWireFormatPolicy::AlwaysPlaintext), WireFormat::PublicMessage);
    assert_eq!(WireFormat::from(OutgoingWireFormatPolicy::AlwaysCiphertext), WireFormat::PrivateMessage);
}

#[test]
fn policy_codec_rejects_unknown_discriminant() {
    assert!(WireFormatPolicy::decode(&vec![0, 3], 0).is_err());
    assert!(WireFormatPolicy::decode(&vec![2, 0], 0).is_err());
}

#[test]
fn all_policies_round_trip() {
    let all = WireFormatPolicy::all();
    assert_eq!(all[0], WireFormatPolicy::pure_plaintext());
    assert_eq!(all[1], WireFormatPolicy::pure_ciphertext());
    assert_eq!(all[2], WireFormatPolicy::mixed_plaintext());
    assert_eq!(all[3], WireFormatPolicy::mixed_ciphertext());
    for p in all {
        let mut buf = Vec::new();
        p.encode(&mut buf).unwrap();
        assert_eq!(WireFormatPolicy::decode(&buf, 0), Ok((p, 2)));
    }
}

#[test]
fn default_policy_is_pure_ciphertext() {
    let d = WireFormatPolicy::default();
    assert_eq!(d.outgoing(), OutgoingWireFormatPolicy::AlwaysCiphertext);
    assert_eq!(d.incoming(), IncomingWireFormatPolicy::AlwaysCiphertext);
}

#[test]
fn default_config_values() {
    let c = MlsGroupConfig::builder().build();
    assert_eq!(c, MlsGroupConfig::default());
    assert_eq!(c.wire_format_policy(), WireFormatPolicy::pure_ciphertext());
    assert_eq!(c.padding_size(), 0);
    assert_eq!(c.max_past_epochs(), 0);
    assert_eq!(c.number_of_resumption_psks(), 0);
    assert!(!c.use_ratchet_tree_extension());
    assert_eq!(c.sender_ratchet_configuration(), &SenderRatchetConfiguration::new(5, 1000));
    assert_eq!(c.crypto_config().ciphersuite, Ciphersuite { id: 1 });
    assert!(c.required_capabilities().extension_types.is_empty());
    assert!(c.external_senders().senders.is_empty());
    assert_eq!(c.lifetime(), &Lifetime { not_before: 0, not_after: u64::MAX });
}

#[test]
fn builder_sets_each_field() {
    let caps = RequiredCapabilitiesExtension { extension_types: vec![3], proposal_types: vec![], credential_types: vec![1] };
    let senders = ExternalSendersExtension {
        senders: vec![ExternalSender { signature_key: vec![1], identity: vec![2] }],
    };
    let c = MlsGroupConfigBuilder::new()
        .wire_format_policy(WireFormatPolicy::mixed_plaintext())
        .padding_size(16)
        .max_past_epochs(2)
        .number_of_resumption_psks(4)
        .use_ratchet_tree_extension(true)
        .required_capabilities(caps.clone())
        .sender_ratchet_configuration(SenderRatchetConfiguration::new(10, 20))
        .lifetime(Lifetime { not_before: 5, not_after: 6 })
        .crypto_config(CryptoConfig::with_default_version(Ciphersuite { id: 3 }))
        .external_senders(senders.clone())
        .build();
    assert_eq!(c.wire_format_policy(), WireFormatPolicy::mixed_plaintext());
    assert_eq!(c.padding_size(), 16);
    assert_eq!(c.max_past_epochs(), 2);
    assert_eq!(c.number_of_resumption_psks(), 4);
    assert!(c.use_ratchet_tree_extension());
    assert_eq!(c.required_capabilities(), &caps);
    assert_eq!(c.sender_ratchet_configuration().maximum_forward_distance, 20);
    assert_eq!(c.lifetime().not_after, 6);
    assert_eq!(c.crypto_config(), &CryptoConfig { ciphersuite: Ciphersuite { id: 3 }, version: 1 });
    assert_eq!(c.external_senders(), &senders);
}

#[test]
fn test_default_config() {
    let c = MlsGroupConfig::test_default(Ciphersuite { id: 2 });
    assert_eq!(c.wire_format_policy().outgoing(), OutgoingWireFormatPolicy::AlwaysPlaintext);
    assert_eq!(c.wire_format_policy().incoming(), IncomingWireFormatPolicy::Mixed);
    assert_eq!(c.crypto_config().ciphersuite.id, 2);
    assert_eq!(c.padding_size(), 0);
}
