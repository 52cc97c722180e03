use topos_tce::config::{
    command_channel_size, default_subnet_contract_address, default_subnet_jsonrpc_endpoint,
    default_tce_grpc_endpoint, normalize_source_head, parse_subnet_id, resolve_subnet_id,
    select_ws_endpoint, SequencerConfig,
};
use topos_tce::pipeline::{DeliveryOutcome, DeliveryPipeline};
use topos_tce::runtime::{Runtime, RuntimeError};
use topos_tce::types::{
    validate_certificate, Certificate, CertificateId, InvalidInput, SourceStreamPosition, SubnetId,
    TargetCheckpoint,
};

fn sid(b: u8) -> SubnetId {
    SubnetId([b; 32])
}

fn cid(b: u8) -> CertificateId {
    CertificateId([b; 32])
}

fn cert(id: u8, prev: u8, source: u8, targets: &[u8]) -> Certificate {
    Certificate {
        prev_id: cid(prev),
        source_subnet_id: sid(source),
        state_root: [0u8; 32],
        tx_root_hash: [0u8; 32],
        target_subnets: targets.iter().map(|t| sid(*t)).collect(),
        verifier: 0,
        id: cid(id),
        proof: Vec::new(),
        signature: Vec::new(),
    }
}

fn checkpoint(targets: &[u8]) -> TargetCheckpoint {
    TargetCheckpoint {
        target_subnet_ids: targets.iter().map(|t| sid(*t)).collect(),
        positions: Vec::new(),
    }
}

#[test]
fn open_stream_confirms_the_requested_subnets() {
    let store = topos_tce::store::IndexStore::new();
    let mut runtime = Runtime::new();
    runtime.set_active_sample(true);
    assert!(runtime.add_pending_stream(1));
    let (subnet_ids, replay) = runtime.open_stream(1, &checkpoint(&[1]), &store).expect("opened");
    assert_eq!(subnet_ids, vec![sid(1)]);
    assert!(replay.is_empty());
}

#[test]
fn open_stream_refused_before_stable_sample() {
    let store = topos_tce::store::IndexStore::new();
    let mut runtime = Runtime::new();
    assert!(runtime.add_pending_stream(1));
    assert!(matches!(
        runtime.open_stream(1, &checkpoint(&[1]), &store),
        Err(RuntimeError::SampleNotStable)
    ));
}

#[test]
fn open_stream_requires_a_tracked_pending_stream() {
    let store = topos_tce::store::IndexStore::new();
    let mut runtime = Runtime::new();
    runtime.set_active_sample(true);
    assert!(matches!(
        runtime.open_stream(9, &checkpoint(&[1]), &store),
        Err(RuntimeError::PendingStreamNotFound(9))
    ));
}

#[test]
fn open_stream_rejects_an_empty_target_list() {
    let store = topos_tce::store::IndexStore::new();
    let mut runtime = Runtime::new();
    runtime.set_active_sample(true);
    assert!(runtime.add_pending_stream(1));
    assert!(matches!(
        runtime.open_stream(1, &checkpoint(&[]), &store),
        Err(RuntimeError::InvalidTargetCheckpoint)
    ));
}

#[test]
fn open_stream_replays_from_the_checkpoint() {
    let mut pipeline = DeliveryPipeline::new();
    assert_eq!(pipeline.deliver(&cert(2, 1, 1, &[7])), DeliveryOutcome::Delivered { position: 1 });
    assert_eq!(pipeline.deliver(&cert(3, 2, 1, &[7])), DeliveryOutcome::Delivered { position: 2 });
    let mut runtime = Runtime::new();
    runtime.set_active_sample(true);
    assert!(runtime.add_pending_stream(1));
    let tc = TargetCheckpoint {
        target_subnet_ids: vec![sid(7)],
        positions: vec![SourceStreamPosition {
            subnet_id: sid(1),
            certificate_id: cid(2),
            position: 1,
        }],
    };
    let (_, replay) = runtime.open_stream(1, &tc, &pipeline.store).expect("opened");
    assert_eq!(replay.len(), 1);
    assert_eq!(replay[0].id, cid(3));
}

#[test]
fn replay_is_scoped_to_the_requested_targets() {
    // A stored certificate addressed only to another subnet never reaches a
    // watcher that did not ask for it, not even through checkpoint replay.
    let mut pipeline = DeliveryPipeline::new();
    assert_eq!(pipeline.deliver(&cert(2, 1, 1, &[2])), DeliveryOutcome::Delivered { position: 1 });
    assert_eq!(pipeline.deliver(&cert(3, 2, 1, &[3])), DeliveryOutcome::Delivered { position: 2 });
    let mut runtime = Runtime::new();
    runtime.set_active_sample(true);
    assert!(runtime.add_pending_stream(1));
    let tc = TargetCheckpoint {
        target_subnet_ids: vec![sid(3)],
        positions: vec![SourceStreamPosition {
            subnet_id: sid(1),
            certificate_id: cid(0),
            position: 0,
        }],
    };
    let (_, replay) = runtime.open_stream(1, &tc, &pipeline.store).expect("opened");
    assert_eq!(replay.len(), 1);
    assert_eq!(replay[0].id, cid(3));
}

#[test]
fn sources_absent_from_the_checkpoint_are_not_replayed() {
    let mut pipeline = DeliveryPipeline::new();
    assert_eq!(pipeline.deliver(&cert(2, 1, 1, &[7])), DeliveryOutcome::Delivered { position: 1 });
    let mut runtime = Runtime::new();
    runtime.set_active_sample(true);
    assert!(runtime.add_pending_stream(1));
    // The watcher asks for target 7 but names no source stream to resume.
    let (_, replay) = runtime.open_stream(1, &checkpoint(&[7]), &pipeline.store).expect("opened");
    assert!(replay.is_empty());
    // Naming the source at position 0 replays its history.
    let mut runtime = Runtime::new();
    runtime.set_active_sample(true);
    assert!(runtime.add_pending_stream(1));
    let tc = TargetCheckpoint {
        target_subnet_ids: vec![sid(7)],
        positions: vec![SourceStreamPosition {
            subnet_id: sid(1),
            certificate_id: cid(0),
            position: 0,
        }],
    };
    let (_, replay) = runtime.open_stream(1, &tc, &pipeline.store).expect("opened");
    assert_eq!(replay.len(), 1);
    assert_eq!(replay[0].id, cid(2));
}

#[test]
fn two_watchers_each_receive_the_delivery_once() {
    let store = topos_tce::store::IndexStore::new();
    let mut runtime = Runtime::new();
    runtime.set_active_sample(true);
    assert!(runtime.add_pending_stream(1));
    assert!(runtime.add_pending_stream(2));
    runtime.open_stream(1, &checkpoint(&[7]), &store).expect("opened");
    runtime.open_stream(2, &checkpoint(&[7, 8]), &store).expect("opened");
    let c = cert(2, 1, 1, &[7]);
    let streams = runtime.fan_out(&c);
    assert_eq!(streams.len(), 2);
    assert!(streams.contains(&1));
    assert!(streams.contains(&2));
    // A certificate for an unwatched target reaches nobody.
    let lonely = cert(3, 2, 1, &[9]);
    assert!(runtime.fan_out(&lonely).is_empty());
    // A certificate for both targets of watcher 2 reaches it once.
    let both = cert(4, 3, 1, &[7, 8]);
    let streams = runtime.fan_out(&both);
    assert_eq!(streams.len(), 2);
}

#[test]
fn duplicate_stream_ids_are_refused() {
    let mut runtime = Runtime::new();
    assert!(runtime.add_pending_stream(1));
    assert!(!runtime.add_pending_stream(1));
}

#[test]
fn validate_collapses_duplicate_targets() {
    let c = cert(2, 1, 1, &[7, 7, 8]);
    let v = validate_certificate(&c).expect("valid");
    assert_eq!(v.target_subnets.len(), 2);
    assert!(matches!(
        validate_certificate(&cert(0, 0, 1, &[7])),
        Err(InvalidInput::ZeroCertificateId)
    ));
    assert!(matches!(
        validate_certificate(&cert(2, 1, 1, &[1])),
        Err(InvalidInput::SourceAmongTargets)
    ));
}

#[test]
fn subnet_id_parses_from_hex_notation() {
    let text = format!("0x{}", "01".repeat(32));
    let parsed = parse_subnet_id(text.as_bytes()).expect("well-formed");
    assert_eq!(parsed, sid(1));
    let mixed = format!("0xAb{}", "01".repeat(31));
    let parsed = parse_subnet_id(mixed.as_bytes()).expect("well-formed");
    assert_eq!(parsed.0[0], 0xab);
    assert_eq!(parse_subnet_id(b"01"), Err(InvalidInput::MissingHexPrefix));
    assert_eq!(parse_subnet_id(b"0x0101"), Err(InvalidInput::BadIdLength));
    let bad = format!("0x{}", "zz".repeat(32));
    assert_eq!(parse_subnet_id(bad.as_bytes()), Err(InvalidInput::InvalidHexCharacter));
}

#[test]
fn subnet_id_resolution_prefers_the_public_key() {
    let mut pk = vec![4u8];
    pk.extend_from_slice(&[9u8; 32]);
    let r = resolve_subnet_id(&Some(pk), &Some("0xnot-an-id".to_string()));
    assert_eq!(r, Ok(Some(SubnetId([9u8; 32]))));
    let short = resolve_subnet_id(&Some(vec![4u8; 3]), &None);
    assert_eq!(short, Err(InvalidInput::BadIdLength));
    let text = format!("0x{}", "02".repeat(32));
    let r = resolve_subnet_id(&None, &Some(text));
    assert_eq!(r, Ok(Some(sid(2))));
    assert_eq!(resolve_subnet_id(&None, &None), Ok(None));
}

#[test]
fn command_channel_size_parses_or_defaults() {
    assert_eq!(command_channel_size(&None), 2048);
    assert_eq!(command_channel_size(&Some("4096".to_string())), 4096);
    assert_eq!(command_channel_size(&Some("".to_string())), 2048);
    assert_eq!(command_channel_size(&Some("12a".to_string())), 2048);
    assert_eq!(
        command_channel_size(&Some("99999999999999999999999999".to_string())),
        2048
    );
}

#[test]
fn source_head_normalisation_drops_the_zero_head() {
    assert!(normalize_source_head(None).is_none());
    let zero_head = cert(0, 0, 1, &[]);
    assert!(normalize_source_head(Some((zero_head, 4))).is_none());
    let real_head = cert(2, 1, 1, &[]);
    assert_eq!(normalize_source_head(Some((real_head, 4))), Some((cid(2), 4)));
}

#[test]
fn explicit_ws_endpoint_overrides_the_derived_one() {
    let derived = "ws://127.0.0.1:8545/ws".to_string();
    let explicit = Some("wss://edge.example/ws".to_string());
    assert_eq!(select_ws_endpoint(derived.clone(), &explicit), "wss://edge.example/ws");
    assert_eq!(select_ws_endpoint(derived.clone(), &None), derived);
}

#[test]
fn configuration_defaults_match_the_documented_values() {
    assert_eq!(default_subnet_jsonrpc_endpoint(), "127.0.0.1:8545");
    assert_eq!(
        default_subnet_contract_address(),
        "0x0000000000000000000000000000000000000000"
    );
    assert_eq!(default_tce_grpc_endpoint(), "http://[::1]:1340");
    assert_eq!(SequencerConfig::profile(), "sequencer");
}
