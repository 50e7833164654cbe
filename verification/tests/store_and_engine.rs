use trust_node::engine::{calculate_all_trust_scores, calculate_trust_score};
use trust_node::store::TrustStore;
use trust_node::types::{CachedTrustScore, Peer, TrustExperience, TrustScore};
use trust_node::SCALE;

const NOW: i64 = 1_700_000_000;

fn experience(id: &str, domain: &str, agent: &str, roi: i64, volume: u64, ts: i64) -> TrustExperience {
    TrustExperience {
        id: id.to_string(),
        id_domain: domain.to_string(),
        agent_id: agent.to_string(),
        pv_roi: roi,
        invested_volume: volume,
        timestamp: ts,
        notes: None,
        data: None,
    }
}

#[test]
fn storage_test_storage_operations() {
    let mut storage = TrustStore::new();

    let exp = experience("id-1", "ethereum", "ethereum:0x123", 1_100_000, 1_000_000_000, NOW);
    storage.add_experience(exp).unwrap();

    let experiences = storage.get_experiences(&"ethereum".to_string(), &"ethereum:0x123".to_string());
    assert_eq!(experiences.len(), 1);
    assert_eq!(experiences[0].pv_roi, 1_100_000);
}

#[test]
fn unit_tests_test_storage_operations() {
    let mut storage = TrustStore::new();

    let exp = experience("id-1", "test", "test_agent", 800_000, 100_000_000, NOW);
    storage.add_experience(exp).unwrap();
    let retrieved = storage.get_experiences(&"test".to_string(), &"test_agent".to_string());

    assert_eq!(retrieved.len(), 1);
    assert_eq!(retrieved[0].agent_id, "test_agent".to_string());
    assert_eq!(retrieved[0].pv_roi, 800_000);
}

#[test]
fn test_trust_calculation() {
    // two experiences: 1.2 over 1000 units and 0.8 over 500 units
    let mut storage = TrustStore::new();
    storage
        .add_experience(experience("a", "test", "test_agent", 1_200_000, 1_000_000_000, NOW))
        .unwrap();
    storage
        .add_experience(experience("b", "test", "test_agent", 800_000, 500_000_000, NOW))
        .unwrap();

    let score = calculate_trust_score(&storage, &"test".to_string(), &"test_agent".to_string(), NOW, 0);

    // (1.2 * 1000 + 0.8 * 500) / 1500 = 1.0667, within one thousandth
    assert!((score.expected_pv_roi - 1_066_667).abs() < 1_000);
    assert_eq!(score.total_volume, 1_500_000_000);
    assert_eq!(score.data_points, 2);
}

#[test]
fn test_volume_weighted_calculations() {
    // ROIs {0.5, 0.9, 0.3} over volumes {50, 150, 100}, same timestamp,
    // queried at that timestamp with a forget rate of 0.1
    let mut storage = TrustStore::new();
    storage
        .add_experience(experience("a", "test", "target", 500_000, 50_000_000, NOW))
        .unwrap();
    storage
        .add_experience(experience("b", "test", "target", 900_000, 150_000_000, NOW))
        .unwrap();
    storage
        .add_experience(experience("c", "test", "target", 300_000, 100_000_000, NOW))
        .unwrap();

    let result = calculate_trust_score(&storage, &"test".to_string(), &"target".to_string(), NOW, 100_000);

    // (0.5*50 + 0.9*150 + 0.3*100) / 300 = 190/300 = 0.6333
    assert!((result.expected_pv_roi - 633_333).abs() < 10_000);
    assert_eq!(result.total_volume, 300_000_000);
    assert_eq!(result.data_points, 3);
}

#[test]
fn test_peer_management() {
    let mut storage = TrustStore::new();

    let peer = Peer {
        peer_id: "test_peer".to_string(),
        name: "Test Peer".to_string(),
        recommender_quality: 800_000,
        added_at: NOW,
    };
    storage.add_peer(peer).unwrap();
    let peers = storage.get_peers();

    assert_eq!(peers.len(), 1);
    assert_eq!(peers[0].peer_id, "test_peer".to_string());
    assert_eq!(peers[0].recommender_quality, 800_000);
}

fn cached(domain: &str, agent: &str, roi: i64, volume: u64, dp: u64, peer: &str, at: i64) -> CachedTrustScore {
    CachedTrustScore {
        id_domain: domain.to_string(),
        agent_id: agent.to_string(),
        score: TrustScore { expected_pv_roi: roi, total_volume: volume, data_points: dp },
        from_peer: peer.to_string(),
        cached_at: at,
    }
}

#[test]
fn test_trust_score_caching() {
    let mut storage = TrustStore::new();

    storage
        .cache_trust_score(cached("test", "test_agent", 1_200_000, 1_000_000_000, 5, "peer123", NOW))
        .unwrap();
    let retrieved = storage.get_cached_scores(&"test".to_string(), &"test_agent".to_string());

    assert_eq!(retrieved.len(), 1);
    assert_eq!(retrieved[0].agent_id, "test_agent".to_string());
    assert_eq!(retrieved[0].from_peer, "peer123".to_string());
    assert_eq!(retrieved[0].score.expected_pv_roi, 1_200_000);
    assert_eq!(retrieved[0].score.total_volume, 1_000_000_000);
    assert_eq!(retrieved[0].score.data_points, 5);
}

#[test]
fn test_multiple_peer_caching() {
    let mut storage = TrustStore::new();

    for i in 0..3u64 {
        let roi = 1_000_000 + (i as i64) * 100_000;
        let volume = 100_000_000 * (i + 1);
        let peer = format!("peer{}", i);
        storage
            .cache_trust_score(cached("test", "test_agent", roi, volume, i + 1, &peer, NOW))
            .unwrap();
    }

    let retrieved = storage.get_cached_scores(&"test".to_string(), &"test_agent".to_string());
    assert_eq!(retrieved.len(), 3);

    for i in 0..3u64 {
        let peer = format!("peer{}", i);
        let row = retrieved
            .iter()
            .find(|s| s.from_peer == peer)
            .expect("Should find peer score");
        assert_eq!(row.score.expected_pv_roi, 1_000_000 + (i as i64) * 100_000);
        assert_eq!(row.score.total_volume, 100_000_000 * (i + 1));
        assert_eq!(row.score.data_points, i + 1);
    }
}

#[test]
fn test_cache_update() {
    // caching the same (agent, peer) pair twice keeps only the later row
    let mut storage = TrustStore::new();

    storage
        .cache_trust_score(cached("test", "test_agent", 1_000_000, 100_000_000, 1, "peer123", NOW))
        .unwrap();
    storage
        .cache_trust_score(cached("test", "test_agent", 1_500_000, 200_000_000, 2, "peer123", NOW))
        .unwrap();

    let retrieved = storage.get_cached_scores(&"test".to_string(), &"test_agent".to_string());
    assert_eq!(retrieved.len(), 1);
    assert_eq!(retrieved[0].score.expected_pv_roi, 1_500_000);
    assert_eq!(retrieved[0].score.total_volume, 200_000_000);
    assert_eq!(retrieved[0].score.data_points, 2);
}

#[test]
fn decay_is_monotone_and_vanishes() {
    // with a positive forget rate the volume falls as the clock advances,
    // and far enough out it reaches zero
    let mut storage = TrustStore::new();
    storage
        .add_experience(experience("a", "test", "agent", 1_000_000, 1_000_000_000, NOW))
        .unwrap();
    let phi = 500_000; // half the weight gone per year

    let d = &"test".to_string();
    let a = &"agent".to_string();
    let v0 = calculate_trust_score(&storage, d, a, NOW, phi).total_volume;
    let v1 = calculate_trust_score(&storage, d, a, NOW + 90 * 86_400, phi).total_volume;
    let v2 = calculate_trust_score(&storage, d, a, NOW + 365 * 86_400, phi).total_volume;
    let v3 = calculate_trust_score(&storage, d, a, NOW + 3 * 365 * 86_400, phi).total_volume;

    assert!(v0 >= v1 && v1 >= v2 && v2 >= v3);
    assert_eq!(v0, 1_000_000_000);
    assert_eq!(v3, 0);

    // a fully decayed ledger yields the neutral score, not an error
    let neutral = calculate_trust_score(&storage, d, a, NOW + 3 * 365 * 86_400, phi);
    assert_eq!(neutral.expected_pv_roi, SCALE as i64);
    assert_eq!(neutral.data_points, 0);
}

#[test]
fn unknown_agent_gets_neutral_default() {
    let storage = TrustStore::new();
    let score = calculate_trust_score(&storage, &"x".to_string(), &"nobody".to_string(), NOW, 0);
    assert_eq!(score.expected_pv_roi, SCALE as i64);
    assert_eq!(score.total_volume, 0);
    assert_eq!(score.data_points, 0);
    assert!(!score.has_data());
}

#[test]
fn tiny_volume_is_accepted_but_weightless() {
    // a one-micro-unit investment is accepted; its aged volume still counts
    let mut storage = TrustStore::new();
    storage.add_experience(experience("a", "t", "a1", 2_000_000, 1, NOW)).unwrap();
    let score = calculate_trust_score(&storage, &"t".to_string(), &"a1".to_string(), NOW, 0);
    assert_eq!(score.total_volume, 1);
    assert_eq!(score.data_points, 1);
}

#[test]
fn invalid_experience_is_an_input_error() {
    let mut storage = TrustStore::new();
    // zero volume is rejected at the boundary
    let bad = experience("a", "t", "a1", 1_000_000, 0, NOW);
    assert_eq!(storage.add_experience(bad), Err(trust_node::TrustError::Input));
    // an empty domain is rejected too
    let bad2 = experience("b", "", "a1", 1_000_000, 10, NOW);
    assert_eq!(storage.add_experience(bad2), Err(trust_node::TrustError::Input));
    assert_eq!(storage.get_all_experiences().len(), 0);
}

#[test]
fn duplicate_experience_id_is_a_conflict() {
    let mut storage = TrustStore::new();
    storage.add_experience(experience("same", "t", "a1", 1_000_000, 10, NOW)).unwrap();
    let dup = experience("same", "t", "a2", 1_000_000, 10, NOW);
    assert_eq!(storage.add_experience(dup), Err(trust_node::TrustError::Conflict));
}

#[test]
fn duplicate_peer_handle_is_a_conflict() {
    let mut storage = TrustStore::new();
    let peer = Peer {
        peer_id: "p1".to_string(),
        name: "one".to_string(),
        recommender_quality: 500_000,
        added_at: NOW,
    };
    storage.add_peer(peer.clone()).unwrap();
    assert_eq!(storage.add_peer(peer), Err(trust_node::TrustError::Conflict));
}

#[test]
fn experiences_come_back_newest_first() {
    let mut storage = TrustStore::new();
    storage.add_experience(experience("a", "t", "a1", 1_000_000, 10, NOW - 100)).unwrap();
    storage.add_experience(experience("b", "t", "a1", 1_000_000, 10, NOW + 100)).unwrap();
    storage.add_experience(experience("c", "t", "a1", 1_000_000, 10, NOW)).unwrap();
    let es = storage.get_experiences(&"t".to_string(), &"a1".to_string());
    assert_eq!(es.len(), 3);
    assert!(es[0].timestamp >= es[1].timestamp && es[1].timestamp >= es[2].timestamp);
    assert_eq!(es[0].id, "b".to_string());
}

#[test]
fn remove_experience_deletes_and_ignores_absent() {
    let mut storage = TrustStore::new();
    storage.add_experience(experience("a", "t", "a1", 1_000_000, 10, NOW)).unwrap();
    storage.remove_experience(&"missing".to_string()).unwrap();
    assert_eq!(storage.get_all_experiences().len(), 1);
    storage.remove_experience(&"a".to_string()).unwrap();
    assert_eq!(storage.get_all_experiences().len(), 0);
}

#[test]
fn update_peer_quality_hits_only_the_named_peer() {
    let mut storage = TrustStore::new();
    let mk = |id: &str| Peer {
        peer_id: id.to_string(),
        name: id.to_string(),
        recommender_quality: 500_000,
        added_at: NOW,
    };
    storage.add_peer(mk("p1")).unwrap();
    storage.add_peer(mk("p2")).unwrap();
    storage.update_peer_quality(&"p1".to_string(), -250_000).unwrap();
    // an unknown handle is a no-op
    storage.update_peer_quality(&"ghost".to_string(), 0).unwrap();
    // an out-of-range quality is rejected
    assert_eq!(
        storage.update_peer_quality(&"p2".to_string(), 2_000_000),
        Err(trust_node::TrustError::Input)
    );
    let peers = storage.get_peers();
    assert_eq!(peers[0].recommender_quality, -250_000);
    assert_eq!(peers[1].recommender_quality, 500_000);
}

#[test]
fn all_scores_cover_every_agent_once() {
    let mut storage = TrustStore::new();
    storage.add_experience(experience("a", "x", "a1", 1_200_000, 100_000_000, NOW)).unwrap();
    storage.add_experience(experience("b", "x", "a1", 800_000, 100_000_000, NOW)).unwrap();
    storage.add_experience(experience("c", "y", "a2", 500_000, 50_000_000, NOW)).unwrap();

    let all = calculate_all_trust_scores(&storage, NOW, 0);
    assert_eq!(all.len(), 2);
    let a1 = all
        .iter()
        .find(|(k, _)| k.id_domain == "x".to_string() && k.agent_id == "a1".to_string())
        .unwrap();
    assert_eq!(a1.1.expected_pv_roi, 1_000_000);
    assert_eq!(a1.1.total_volume, 200_000_000);
    assert_eq!(a1.1.data_points, 2);
    let a2 = all
        .iter()
        .find(|(k, _)| k.id_domain == "y".to_string() && k.agent_id == "a2".to_string())
        .unwrap();
    assert_eq!(a2.1.expected_pv_roi, 500_000);
}

#[test]
fn cached_scores_come_back_newest_first() {
    let mut storage = TrustStore::new();
    storage
        .cache_trust_score(cached("test", "agent", 1_000_000, 10, 1, "older", NOW - 500))
        .unwrap();
    storage
        .cache_trust_score(cached("test", "agent", 1_000_000, 10, 1, "newest", NOW + 500))
        .unwrap();
    storage
        .cache_trust_score(cached("test", "agent", 1_000_000, 10, 1, "middle", NOW))
        .unwrap();

    let rows = storage.get_cached_scores(&"test".to_string(), &"agent".to_string());
    assert_eq!(rows.len(), 3);
    assert_eq!(rows[0].from_peer, "newest".to_string());
    assert_eq!(rows[1].from_peer, "middle".to_string());
    assert_eq!(rows[2].from_peer, "older".to_string());
}
