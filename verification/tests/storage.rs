use topos_tce::store::{IndexStore, StorageError};
use topos_tce::types::{
    Certificate, CertificateId, SourceCheckpoint, SourceStreamPosition, SubnetId,
};

fn sid(b: u8) -> SubnetId {
    SubnetId([b; 32])
}

fn cid(b: u8) -> CertificateId {
    CertificateId([b; 32])
}

fn cert(id: u8, prev: u8, source: u8, targets: &[u8]) -> Certificate {
    Certificate {
        prev_id: cid(prev),
        source_subnet_id: sid(source),
        state_root: [0u8; 32],
        tx_root_hash: [0u8; 32],
        target_subnets: targets.iter().map(|t| sid(*t)).collect(),
        verifier: 0,
        id: cid(id),
        proof: Vec::new(),
        signature: Vec::new(),
    }
}

#[test]
fn get_source_head_empty_history_is_synthetic_genesis() {
    let store = IndexStore::new();
    let (head, position) = store.get_source_head(&sid(1));
    assert_eq!(position, 0);
    assert_eq!(head.id, cid(0));
    assert_eq!(head.prev_id, cid(0));
    assert_eq!(head.source_subnet_id, sid(1));
    assert!(head.target_subnets.is_empty());
    assert_eq!(head.state_root, [0u8; 32]);
    assert_eq!(head.tx_root_hash, [0u8; 32]);
    assert_eq!(head.verifier, 0);
    assert!(head.proof.is_empty());
    assert!(head.signature.is_empty());
}

#[test]
fn first_delivery_takes_position_one() {
    let mut store = IndexStore::new();
    let c1 = cert(2, 1, 1, &[3]);
    assert_eq!(store.put_delivered(&c1), Ok(1));
    let (head, position) = store.get_source_head(&sid(1));
    assert_eq!(position, 1);
    assert_eq!(head.id, cid(2));
}

#[test]
fn repeated_delivery_is_already_exists() {
    let mut store = IndexStore::new();
    let c1 = cert(2, 1, 1, &[3]);
    assert_eq!(store.put_delivered(&c1), Ok(1));
    assert_eq!(store.put_delivered(&c1), Err(StorageError::AlreadyExists));
    let (_, position) = store.get_source_head(&sid(1));
    assert_eq!(position, 1);
}

#[test]
fn mismatched_prev_is_unexpected_prev() {
    let mut store = IndexStore::new();
    let c1 = cert(2, 1, 1, &[3]);
    assert_eq!(store.put_delivered(&c1), Ok(1));
    let c_bad = cert(4, 9, 1, &[3]);
    assert_eq!(store.put_delivered(&c_bad), Err(StorageError::UnexpectedPrev));
    let c2 = cert(4, 2, 1, &[3]);
    assert_eq!(store.put_delivered(&c2), Ok(2));
}

#[test]
fn certificate_by_id_finds_stored_certificates() {
    let mut store = IndexStore::new();
    let c1 = cert(2, 1, 1, &[3]);
    store.put_delivered(&c1).unwrap();
    let found = store.certificate_by_id(&cid(2)).expect("stored");
    assert_eq!(found.id, cid(2));
    assert_eq!(found.source_subnet_id, sid(1));
    assert!(store.certificate_by_id(&cid(9)).is_none());
}

#[test]
fn target_stream_scan_yields_rows_in_position_order() {
    let mut store = IndexStore::new();
    let c1 = cert(2, 1, 1, &[7]);
    let c2 = cert(3, 2, 1, &[7, 8]);
    store.put_delivered(&c1).unwrap();
    store.put_delivered(&c2).unwrap();
    let rows = store.get_target_stream(&sid(7), &sid(1), 0, 10);
    assert_eq!(rows.len(), 2);
    assert_eq!(rows[0].position, 1);
    assert_eq!(rows[0].id, cid(2));
    assert_eq!(rows[1].position, 2);
    assert_eq!(rows[1].id, cid(3));
    let later = store.get_target_stream(&sid(7), &sid(1), 2, 10);
    assert_eq!(later.len(), 1);
    assert_eq!(later[0].id, cid(3));
    let limited = store.get_target_stream(&sid(7), &sid(1), 0, 1);
    assert_eq!(limited.len(), 1);
    assert_eq!(limited[0].id, cid(2));
    let other = store.get_target_stream(&sid(8), &sid(1), 0, 10);
    assert_eq!(other.len(), 1);
    assert_eq!(other[0].id, cid(3));
}

#[test]
fn checkpoint_scan_starts_strictly_after_given_positions() {
    let mut store = IndexStore::new();
    let c1 = cert(2, 1, 1, &[7]);
    let c2 = cert(3, 2, 1, &[7]);
    let c3 = cert(4, 3, 1, &[7]);
    store.put_delivered(&c1).unwrap();
    store.put_delivered(&c2).unwrap();
    store.put_delivered(&c3).unwrap();
    let checkpoint = SourceCheckpoint {
        positions: vec![SourceStreamPosition {
            subnet_id: sid(1),
            certificate_id: cid(2),
            position: 1,
        }],
    };
    let certs = store.get_certificates_per_subnet(&checkpoint, 10);
    assert_eq!(certs.len(), 2);
    assert_eq!(certs[0].id, cid(3));
    assert_eq!(certs[1].id, cid(4));
    let capped = store.get_certificates_per_subnet(&checkpoint, 1);
    assert_eq!(capped.len(), 1);
    assert_eq!(capped[0].id, cid(3));
}

#[test]
fn stored_chain_links_heads_and_index_rows_agree() {
    // Each stored certificate above position 1 names its predecessor; the
    // head is the certificate at the maximum position; every target index row
    // points at the certificate stored at its (source, position).
    let mut store = IndexStore::new();
    let c1 = cert(2, 1, 1, &[7]);
    let c2 = cert(3, 2, 1, &[8]);
    let c3 = cert(4, 3, 1, &[7, 8]);
    store.put_delivered(&c1).unwrap();
    store.put_delivered(&c2).unwrap();
    store.put_delivered(&c3).unwrap();
    let stored_c3 = store.certificate_by_id(&cid(4)).expect("stored");
    let predecessor = store.certificate_by_id(&stored_c3.prev_id).expect("linked");
    assert_eq!(predecessor.id, cid(3));
    assert_eq!(predecessor.source_subnet_id, stored_c3.source_subnet_id);
    let (head, position) = store.get_source_head(&sid(1));
    assert_eq!(position, 3);
    assert_eq!(head.id, cid(4));
    for row in store.get_target_stream(&sid(8), &sid(1), 0, 10) {
        let backing = store.certificate_by_id(&row.id).expect("backed");
        assert_eq!(backing.source_subnet_id, row.source);
        assert!(backing.target_subnets.contains(&row.target));
    }
    assert_eq!(store.get_target_stream(&sid(8), &sid(1), 0, 10).len(), 2);
}

#[test]
fn checkpoint_scan_of_unknown_subnet_is_empty() {
    let store = IndexStore::new();
    let checkpoint = SourceCheckpoint {
        positions: vec![SourceStreamPosition {
            subnet_id: sid(5),
            certificate_id: cid(0),
            position: 0,
        }],
    };
    assert!(store.get_certificates_per_subnet(&checkpoint, 10).is_empty());
}
