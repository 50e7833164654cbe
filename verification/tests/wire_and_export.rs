use trust_node::codec::{TrustCodec, TrustProtocol, REQUEST_SIZE_LIMIT, RESPONSE_SIZE_LIMIT};
use trust_node::export::{export_trust_data, import_trust_data};
use trust_node::store::TrustStore;
use trust_node::types::{Peer, TrustExperience};
use trust_node::TrustError;

const NOW: i64 = 1_700_000_000;

#[test]
fn protocol_name_is_fixed() {
    assert_eq!(TrustProtocol.name(), "/repeer/trust/1.0.0");
}

#[test]
fn framing_round_trips() {
    let payload: Vec<u8> = vec![7, 0, 255, 42, 1];
    let framed = TrustCodec::frame(&payload, REQUEST_SIZE_LIMIT).unwrap();
    assert_eq!(framed.len(), payload.len() + 4);
    // 4-byte big-endian length prefix
    assert_eq!(&framed[0..4], &[0, 0, 0, 5]);
    let back = TrustCodec::unframe(&framed, REQUEST_SIZE_LIMIT).unwrap();
    assert_eq!(back, payload);
}

#[test]
fn framing_round_trips_empty_and_large() {
    let empty: Vec<u8> = Vec::new();
    let framed = TrustCodec::frame(&empty, RESPONSE_SIZE_LIMIT).unwrap();
    assert_eq!(framed, vec![0, 0, 0, 0]);
    assert_eq!(TrustCodec::unframe(&framed, RESPONSE_SIZE_LIMIT).unwrap(), empty);

    let big: Vec<u8> = vec![9u8; 70_000];
    let framed = TrustCodec::frame(&big, RESPONSE_SIZE_LIMIT).unwrap();
    assert_eq!(&framed[0..4], &[0, 1, 17, 112]); // 70000 = 0x00011170
    assert_eq!(TrustCodec::unframe(&framed, RESPONSE_SIZE_LIMIT).unwrap(), big);
}

#[test]
fn oversize_frames_are_invalid_data() {
    let payload: Vec<u8> = vec![0u8; REQUEST_SIZE_LIMIT + 1];
    assert_eq!(TrustCodec::frame(&payload, REQUEST_SIZE_LIMIT), Err(TrustError::Input));

    // a frame whose declared length exceeds the limit is refused
    let mut bogus: Vec<u8> = vec![0xFF, 0xFF, 0xFF, 0xFF];
    bogus.push(1);
    assert_eq!(TrustCodec::unframe(&bogus, REQUEST_SIZE_LIMIT), Err(TrustError::Input));

    // a short buffer is refused
    let short: Vec<u8> = vec![0, 0];
    assert_eq!(TrustCodec::unframe(&short, REQUEST_SIZE_LIMIT), Err(TrustError::Input));

    // a length that disagrees with the buffer is refused
    let lying: Vec<u8> = vec![0, 0, 0, 9, 1, 2];
    assert_eq!(TrustCodec::unframe(&lying, REQUEST_SIZE_LIMIT), Err(TrustError::Input));
}

fn experience(id: &str, domain: &str, agent: &str, roi: i64, volume: u64, ts: i64) -> TrustExperience {
    TrustExperience {
        id: id.to_string(),
        id_domain: domain.to_string(),
        agent_id: agent.to_string(),
        pv_roi: roi,
        invested_volume: volume,
        timestamp: ts,
        notes: None,
        data: None,
    }
}

#[test]
fn export_import_round_trip_reproduces_the_store() {
    let mut store = TrustStore::new();
    store.add_experience(experience("a", "x", "a1", 1_200_000, 1_000_000_000, NOW)).unwrap();
    store.add_experience(experience("b", "x", "a1", 800_000, 500_000_000, NOW - 50)).unwrap();
    store.add_experience(experience("c", "y", "a2", 400_000, 10_000_000, NOW + 20)).unwrap();
    store
        .add_peer(Peer {
            peer_id: "p1".to_string(),
            name: "one".to_string(),
            recommender_quality: 750_000,
            added_at: NOW,
        })
        .unwrap();
    store
        .add_peer(Peer {
            peer_id: "p2".to_string(),
            name: "two".to_string(),
            recommender_quality: -250_000,
            added_at: NOW,
        })
        .unwrap();

    let doc = export_trust_data(&store, NOW);
    assert_eq!(doc.version, "1.0");
    assert_eq!(doc.exported_at, NOW);
    assert_eq!(doc.experiences.len(), 3);
    assert_eq!(doc.peers.len(), 2);

    let mut fresh = TrustStore::new();
    import_trust_data(&mut fresh, &doc, true).unwrap();

    // the same experiences come back (as a set) and the same peers
    let mut old_ids: Vec<String> = store.get_all_experiences().iter().map(|e| e.id.clone()).collect();
    let mut new_ids: Vec<String> = fresh.get_all_experiences().iter().map(|e| e.id.clone()).collect();
    old_ids.sort();
    new_ids.sort();
    assert_eq!(old_ids, new_ids);
    assert_eq!(fresh.get_all_experiences().len(), 3);
    let back = fresh.get_experiences(&"x".to_string(), &"a1".to_string());
    assert_eq!(back.len(), 2);
    assert_eq!(back[0].pv_roi, 1_200_000);

    let peers = fresh.get_peers();
    assert_eq!(peers.len(), 2);
    assert_eq!(peers[0].peer_id, "p1".to_string());
    assert_eq!(peers[1].peer_id, "p2".to_string());
    assert_eq!(peers[1].recommender_quality, -250_000);
}

#[test]
fn merge_import_skips_agents_with_data_and_known_peers() {
    let mut store = TrustStore::new();
    store.add_experience(experience("mine", "x", "a1", 1_000_000, 10_000_000, NOW)).unwrap();
    store
        .add_peer(Peer {
            peer_id: "p1".to_string(),
            name: "kept".to_string(),
            recommender_quality: 500_000,
            added_at: NOW,
        })
        .unwrap();

    let mut other = TrustStore::new();
    other.add_experience(experience("theirs", "x", "a1", 2_000_000, 90_000_000, NOW)).unwrap();
    other.add_experience(experience("fresh", "y", "a2", 500_000, 5_000_000, NOW)).unwrap();
    other
        .add_peer(Peer {
            peer_id: "p1".to_string(),
            name: "ignored".to_string(),
            recommender_quality: 0,
            added_at: NOW,
        })
        .unwrap();
    other
        .add_peer(Peer {
            peer_id: "p2".to_string(),
            name: "added".to_string(),
            recommender_quality: 250_000,
            added_at: NOW,
        })
        .unwrap();
    let doc = export_trust_data(&other, NOW);

    import_trust_data(&mut store, &doc, false).unwrap();

    // agent a1 already had data, so the incoming row stayed out
    assert_eq!(store.get_experiences(&"x".to_string(), &"a1".to_string()).len(), 1);
    // agent a2 had none, so it joined
    assert_eq!(store.get_experiences(&"y".to_string(), &"a2".to_string()).len(), 1);
    let peers = store.get_peers();
    assert_eq!(peers.len(), 2);
    assert_eq!(peers[0].name, "kept".to_string());
}

#[test]
fn cached_scores_are_not_exported() {
    let mut store = TrustStore::new();
    store
        .cache_trust_score(trust_node::types::CachedTrustScore {
            id_domain: "x".to_string(),
            agent_id: "a".to_string(),
            score: trust_node::types::TrustScore {
                expected_pv_roi: 1_000_000,
                total_volume: 1,
                data_points: 1,
            },
            from_peer: "p".to_string(),
            cached_at: NOW,
        })
        .unwrap();
    let doc = export_trust_data(&store, NOW);
    assert_eq!(doc.experiences.len(), 0);
    assert_eq!(doc.peers.len(), 0);

    let mut fresh = TrustStore::new();
    import_trust_data(&mut fresh, &doc, true).unwrap();
    assert_eq!(fresh.get_cached_scores(&"x".to_string(), &"a".to_string()).len(), 0);
}
