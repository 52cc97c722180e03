use topos_tce::double_echo::{BroadcastParams, DoubleEcho, ProtocolEvents, ValidatorId};
use topos_tce::pipeline::{DeliveryOutcome, DeliveryPipeline};
use topos_tce::protocol::{AppContext, GossipTopic, TceAction};
use topos_tce::runtime::submit_certificate;
use topos_tce::types::{Certificate, CertificateId, SubnetId};

fn sid(b: u8) -> SubnetId {
    SubnetId([b; 32])
}

fn cid(b: u8) -> CertificateId {
    CertificateId([b; 32])
}

fn cert(id: u8, prev: u8, source: u8, targets: &[u8]) -> Certificate {
    Certificate {
        prev_id: cid(prev),
        source_subnet_id: sid(source),
        state_root: [0u8; 32],
        tx_root_hash: [0u8; 32],
        target_subnets: targets.iter().map(|t| sid(*t)).collect(),
        verifier: 0,
        id: cid(id),
        proof: Vec::new(),
        signature: Vec::new(),
    }
}

fn params() -> BroadcastParams {
    BroadcastParams { echo_threshold: 2, ready_threshold: 2, delivery_threshold: 3 }
}

#[test]
fn first_observation_gossips_and_echoes() {
    let mut engine = DoubleEcho::new(params(), ValidatorId(0));
    let c = cert(2, 1, 1, &[7]);
    let events = engine.on_broadcast(&c, &vec![9u8], true);
    assert_eq!(events.len(), 3);
    assert!(matches!(&events[0], ProtocolEvents::Broadcast { certificate_id } if *certificate_id == cid(2)));
    assert!(matches!(&events[1], ProtocolEvents::Gossip { cert } if cert.id == cid(2)));
    assert!(matches!(&events[2], ProtocolEvents::Echo { certificate_id, signature, validator_id }
        if *certificate_id == cid(2) && signature == &vec![9u8] && *validator_id == ValidatorId(0)));
}

#[test]
fn echo_quorum_moves_to_ready_once() {
    let mut engine = DoubleEcho::new(params(), ValidatorId(0));
    let c = cert(2, 1, 1, &[7]);
    engine.on_broadcast(&c, &vec![], false);
    let e1 = engine.on_echo(&cid(2), ValidatorId(10), &vec![]);
    assert!(e1.is_empty());
    // A duplicate echo from the same validator is counted once.
    let e1b = engine.on_echo(&cid(2), ValidatorId(10), &vec![]);
    assert!(e1b.is_empty());
    let e2 = engine.on_echo(&cid(2), ValidatorId(11), &vec![]);
    assert_eq!(e2.len(), 1);
    assert!(matches!(&e2[0], ProtocolEvents::Ready { certificate_id, .. } if *certificate_id == cid(2)));
    // Further echoes only update the counter.
    let e3 = engine.on_echo(&cid(2), ValidatorId(12), &vec![]);
    assert!(e3.is_empty());
}

#[test]
fn ready_quorum_delivers_exactly_once() {
    let mut engine = DoubleEcho::new(params(), ValidatorId(0));
    let c = cert(2, 1, 1, &[7]);
    engine.on_broadcast(&c, &vec![], false);
    assert!(engine.on_ready(&cid(2), ValidatorId(10), &vec![]).is_empty());
    // A duplicate ready from the same validator is counted once.
    assert!(engine.on_ready(&cid(2), ValidatorId(10), &vec![]).is_empty());
    let r2 = engine.on_ready(&cid(2), ValidatorId(11), &vec![]);
    assert_eq!(r2.len(), 1);
    assert!(matches!(&r2[0], ProtocolEvents::Ready { .. }));
    let r3 = engine.on_ready(&cid(2), ValidatorId(12), &vec![]);
    assert_eq!(r3.len(), 1);
    assert!(matches!(&r3[0], ProtocolEvents::CertificateDelivered { certificate } if certificate.id == cid(2)));
    // Once delivered, further readies are ignored.
    assert!(engine.on_ready(&cid(2), ValidatorId(13), &vec![]).is_empty());
}

#[test]
fn submit_is_idempotent() {
    let mut engine = DoubleEcho::new(params(), ValidatorId(0));
    let c = cert(2, 1, 1, &[7]);
    let first = submit_certificate(&mut engine, &c, &vec![]).expect("valid");
    assert_eq!(first.len(), 3);
    assert_eq!(engine.states.len(), 1);
    let second = submit_certificate(&mut engine, &c, &vec![]).expect("valid");
    assert!(second.is_empty());
    assert_eq!(engine.states.len(), 1);
    assert_eq!(engine.states[0].echoes.len(), 0);
    assert_eq!(engine.states[0].readies.len(), 0);
}

#[test]
fn submit_rejects_zero_id_and_source_among_targets() {
    let mut engine = DoubleEcho::new(params(), ValidatorId(0));
    let zero = cert(0, 0, 1, &[7]);
    assert!(submit_certificate(&mut engine, &zero, &vec![]).is_err());
    let looped = cert(2, 1, 1, &[1]);
    assert!(submit_certificate(&mut engine, &looped, &vec![]).is_err());
    assert_eq!(engine.states.len(), 0);
}

#[test]
fn timeout_drops_the_broadcast() {
    let mut engine = DoubleEcho::new(params(), ValidatorId(0));
    let c = cert(2, 1, 1, &[7]);
    engine.on_broadcast(&c, &vec![], false);
    let events = engine.on_timeout(&cid(2));
    assert_eq!(events.len(), 1);
    assert!(matches!(&events[0], ProtocolEvents::BroadcastFailed { certificate_id } if *certificate_id == cid(2)));
    // The state is gone: echoes for it change nothing.
    assert!(engine.on_echo(&cid(2), ValidatorId(10), &vec![]).is_empty());
    assert_eq!(engine.states.len(), 0);
}

#[test]
fn non_validator_delivers_without_publishing() {
    let mut engine = DoubleEcho::new(params(), ValidatorId(0));
    let router = AppContext { is_validator: false };
    let c = cert(2, 1, 1, &[7]);
    let mut published_echo_or_ready = false;
    let mut delivered = false;
    let mut all_events = engine.on_broadcast(&c, &vec![], false);
    for v in [10u64, 11, 12] {
        all_events.extend(engine.on_echo(&cid(2), ValidatorId(v), &vec![]));
        all_events.extend(engine.on_ready(&cid(2), ValidatorId(v), &vec![]));
    }
    for event in all_events {
        if matches!(event, ProtocolEvents::CertificateDelivered { .. }) {
            delivered = true;
            continue;
        }
        for action in router.on_protocol_event(event) {
            if let TceAction::Publish { topic, .. } = action {
                if topic == GossipTopic::Echo || topic == GossipTopic::Ready {
                    published_echo_or_ready = true;
                }
            }
        }
    }
    assert!(delivered);
    assert!(!published_echo_or_ready);
}

#[test]
fn validator_publishes_echoes_and_readies() {
    let router = AppContext { is_validator: true };
    let echo = ProtocolEvents::Echo {
        certificate_id: cid(2),
        signature: vec![1],
        validator_id: ValidatorId(5),
    };
    let actions = router.on_protocol_event(echo);
    assert_eq!(actions.len(), 1);
    assert!(matches!(&actions[0], TceAction::Publish { topic: GossipTopic::Echo, .. }));
    let ready = ProtocolEvents::Ready {
        certificate_id: cid(2),
        signature: vec![1],
        validator_id: ValidatorId(5),
    };
    let actions = router.on_protocol_event(ready);
    assert_eq!(actions.len(), 1);
    assert!(matches!(&actions[0], TceAction::Publish { topic: GossipTopic::Ready, .. }));
}

#[test]
fn stable_sample_activates_api_and_die_shuts_down() {
    let router = AppContext { is_validator: false };
    let actions = router.on_protocol_event(ProtocolEvents::StableSample);
    assert_eq!(actions.len(), 2);
    assert!(matches!(&actions[0], TceAction::SetActiveSample { value: true }));
    assert!(matches!(&actions[1], TceAction::NotifyStableSample));
    let actions = router.on_protocol_event(ProtocolEvents::Die);
    assert_eq!(actions.len(), 1);
    assert!(matches!(&actions[0], TceAction::Shutdown));
}

#[test]
fn end_to_end_quorum_updates_source_head() {
    // A submitted certificate delivers after the ready quorum and the head
    // then reflects it at position 1, the synthetic genesis occupying 0.
    let mut engine = DoubleEcho::new(params(), ValidatorId(0));
    let mut pipeline = DeliveryPipeline::new();
    let c1 = cert(2, 1, 1, &[7]);
    submit_certificate(&mut engine, &c1, &vec![]).expect("accepted");
    let mut delivered_cert = None;
    for v in [10u64, 11, 12] {
        for event in engine.on_ready(&cid(2), ValidatorId(v), &vec![]) {
            if let ProtocolEvents::CertificateDelivered { certificate } = event {
                delivered_cert = Some(certificate);
            }
        }
    }
    let delivered_cert = delivered_cert.expect("quorum reached");
    assert_eq!(
        pipeline.deliver(&delivered_cert),
        DeliveryOutcome::Delivered { position: 1 }
    );
    let (head, position) = pipeline.store.get_source_head(&sid(1));
    assert_eq!(position, 1);
    assert_eq!(head.id, cid(2));
}

#[test]
fn parked_certificate_released_by_its_predecessor() {
    let mut pipeline = DeliveryPipeline::new();
    let c0 = cert(2, 1, 1, &[7]);
    assert_eq!(pipeline.deliver(&c0), DeliveryOutcome::Delivered { position: 1 });
    // c2 arrives before its predecessor c1: it is held.
    let c2 = cert(4, 3, 1, &[7]);
    assert_eq!(pipeline.deliver(&c2), DeliveryOutcome::Parked);
    let (_, position) = pipeline.store.get_source_head(&sid(1));
    assert_eq!(position, 1);
    // Delivering c1 commits both, in order.
    let c1 = cert(3, 2, 1, &[7]);
    assert_eq!(pipeline.deliver(&c1), DeliveryOutcome::Delivered { position: 2 });
    let (head, position) = pipeline.store.get_source_head(&sid(1));
    assert_eq!(position, 3);
    assert_eq!(head.id, cid(4));
    assert!(pipeline.parked.is_empty());
    let rows = pipeline.store.get_target_stream(&sid(7), &sid(1), 0, 10);
    assert_eq!(rows.len(), 3);
    assert_eq!(rows[1].id, cid(3));
    assert_eq!(rows[2].id, cid(4));
}

#[test]
fn two_nodes_fed_the_same_messages_deliver_equal_sets() {
    // Two honest nodes that see the same gossip and readies deliver the same
    // certificate ids, whatever their own validator identity.
    let mut node_a = DoubleEcho::new(params(), ValidatorId(1));
    let mut node_b = DoubleEcho::new(params(), ValidatorId(2));
    let certs = [cert(2, 1, 1, &[7]), cert(3, 2, 1, &[7]), cert(5, 0, 4, &[1])];
    let mut delivered_a: Vec<CertificateId> = Vec::new();
    let mut delivered_b: Vec<CertificateId> = Vec::new();
    for c in &certs {
        node_a.on_broadcast(c, &vec![], false);
        node_b.on_broadcast(c, &vec![], false);
        for v in [10u64, 11, 12] {
            for event in node_a.on_ready(&c.id, ValidatorId(v), &vec![]) {
                if let ProtocolEvents::CertificateDelivered { certificate } = event {
                    delivered_a.push(certificate.id);
                }
            }
            for event in node_b.on_ready(&c.id, ValidatorId(v), &vec![]) {
                if let ProtocolEvents::CertificateDelivered { certificate } = event {
                    delivered_b.push(certificate.id);
                }
            }
        }
    }
    assert_eq!(delivered_a, delivered_b);
    assert_eq!(delivered_a, vec![cid(2), cid(3), cid(5)]);
}

#[test]
fn redelivery_counts_as_success() {
    let mut pipeline = DeliveryPipeline::new();
    let c1 = cert(2, 1, 1, &[7]);
    assert_eq!(pipeline.deliver(&c1), DeliveryOutcome::Delivered { position: 1 });
    assert_eq!(pipeline.deliver(&c1), DeliveryOutcome::AlreadyDelivered);
}
