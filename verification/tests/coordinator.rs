use trust_node::node::{merge_responses, TrustNode, QueryStep};
use trust_node::score::{Contribution, Source};
use trust_node::store::TrustStore;
use trust_node::types::{
    AgentIdentifier, AgentScore, CachedTrustScore, Peer, TrustExperience, TrustQuery, TrustResponse,
    TrustScore,
};
use trust_node::{TrustError, SCALE};

const NOW: i64 = 1_700_000_000;

fn experience(id: &str, domain: &str, agent: &str, roi: i64, volume: u64, ts: i64) -> TrustExperience {
    TrustExperience {
        id: id.to_string(),
        id_domain: domain.to_string(),
        agent_id: agent.to_string(),
        pv_roi: roi,
        invested_volume: volume,
        timestamp: ts,
        notes: None,
        data: None,
    }
}

fn peer(handle: &str, quality: i64) -> Peer {
    Peer {
        peer_id: handle.to_string(),
        name: handle.to_string(),
        recommender_quality: quality,
        added_at: NOW,
    }
}

fn query_for(domain: &str, agent: &str, depth: u8) -> TrustQuery {
    TrustQuery {
        agents: vec![AgentIdentifier::new(domain.to_string(), agent.to_string())],
        max_depth: depth,
        point_in_time: Some(NOW),
        forget_rate: Some(0),
    }
}

fn single_score(step: QueryStep, domain: &str, agent: &str) -> TrustScore {
    match step {
        QueryStep::Reply(resp) => {
            let found = resp
                .scores
                .iter()
                .find(|s| s.id_domain == domain.to_string() && s.agent_id == agent.to_string());
            match found {
                Some(s) => s.score,
                None => TrustScore::default(),
            }
        }
        _ => panic!("expected an immediate reply"),
    }
}

#[test]
fn depth_zero_replies_at_once_from_local_data() {
    // two experiences, depth 0: the reply comes straight from the ledger
    let mut store = TrustStore::new();
    store
        .add_experience(experience("a", "x", "a", 1_200_000, 1_000_000_000, NOW))
        .unwrap();
    store
        .add_experience(experience("b", "x", "a", 800_000, 500_000_000, NOW))
        .unwrap();
    let mut node = TrustNode::new(store);

    let connected: Vec<String> = vec!["peerB".to_string()];
    let step = node.begin_query(&query_for("x", "a", 0), &connected, NOW, 7);
    assert!(matches!(step, QueryStep::Reply(_)));
    assert_eq!(node.pending.len(), 0);

    let score = single_score(step, "x", "a");
    assert!((score.expected_pv_roi - 1_066_667).abs() < 1_000);
    assert_eq!(score.total_volume, 1_500_000_000);
    assert_eq!(score.data_points, 2);
    // any emitted score with volume has at least one data point behind it
    assert!(score.total_volume == 0 || score.data_points >= 1);
}

#[test]
fn depth_one_fans_out_and_fuses_the_peer_answer() {
    // node A has no local data; connected peer B answers (1.2, 1000, 3);
    // the reply is exactly B's aggregate at full weight
    let mut store = TrustStore::new();
    store.add_peer(peer("peerB", SCALE as i64)).unwrap();
    let mut node = TrustNode::new(store);

    let connected: Vec<String> = vec!["peerB".to_string()];
    let step = node.begin_query(&query_for("x", "a", 1), &connected, NOW, 42);
    let subs = match step {
        QueryStep::Suspended(subs) => subs,
        _ => panic!("expected a fan-out"),
    };
    assert_eq!(subs.len(), 1);
    assert_eq!(subs[0].peer_id, "peerB".to_string());
    assert_eq!(subs[0].query.max_depth, 0);
    assert_eq!(subs[0].query.point_in_time, Some(NOW));
    assert_eq!(subs[0].query.forget_rate, Some(0));
    assert_eq!(node.pending.len(), 1);

    let b_reply = TrustResponse {
        scores: vec![AgentScore::new(
            "x".to_string(),
            "a".to_string(),
            TrustScore { expected_pv_roi: 1_200_000, total_volume: 1_000_000_000, data_points: 3 },
        )],
        timestamp: NOW,
    };
    let out = node.on_response(subs[0].request_id, &"peerB".to_string(), b_reply, NOW);
    let (token, reply) = out.expect("the waiting set drained");
    assert_eq!(token, 42);
    assert_eq!(node.pending.len(), 0);

    let s = &reply.scores[0];
    assert_eq!(s.score.expected_pv_roi, 1_200_000);
    assert_eq!(s.score.total_volume, 1_000_000_000);
    assert_eq!(s.score.data_points, 3);

    // the arrived opinion was cached as peerB's
    let rows = node.store.get_cached_scores(&"x".to_string(), &"a".to_string());
    assert_eq!(rows.len(), 1);
    assert_eq!(rows[0].from_peer, "peerB".to_string());
    assert_eq!(rows[0].score.expected_pv_roi, 1_200_000);
}

#[test]
fn contrarian_cached_opinion_reflects_and_halves() {
    // peer B is a half-weight contrarian; its cached opinion (0.6, 1000, 3)
    // fuses to (2 - 0.6, 1000 * 0.5, 3) at depth zero
    let mut store = TrustStore::new();
    store.add_peer(peer("peerB", -(SCALE as i64) / 2)).unwrap();
    store
        .cache_trust_score(CachedTrustScore {
            id_domain: "x".to_string(),
            agent_id: "a".to_string(),
            score: TrustScore { expected_pv_roi: 600_000, total_volume: 1_000_000_000, data_points: 3 },
            from_peer: "peerB".to_string(),
            cached_at: NOW,
        })
        .unwrap();
    let mut node = TrustNode::new(store);

    let step = node.begin_query(&query_for("x", "a", 0), &Vec::new(), NOW, 1);
    let score = single_score(step, "x", "a");
    assert_eq!(score.expected_pv_roi, 1_400_000);
    assert_eq!(score.total_volume, 500_000_000);
    assert_eq!(score.data_points, 3);
}

#[test]
fn cached_opinion_from_unknown_peer_is_ignored() {
    let mut store = TrustStore::new();
    store
        .cache_trust_score(CachedTrustScore {
            id_domain: "x".to_string(),
            agent_id: "a".to_string(),
            score: TrustScore { expected_pv_roi: 600_000, total_volume: 1_000_000_000, data_points: 3 },
            from_peer: "stranger".to_string(),
            cached_at: NOW,
        })
        .unwrap();
    let mut node = TrustNode::new(store);
    let step = node.begin_query(&query_for("x", "a", 0), &Vec::new(), NOW, 1);
    match step {
        QueryStep::Reply(resp) => assert_eq!(resp.scores.len(), 0),
        _ => panic!("expected an immediate reply"),
    }
}

#[test]
fn zero_quality_peer_contributes_nothing() {
    let mut store = TrustStore::new();
    store.add_peer(peer("peerB", 0)).unwrap();
    store
        .cache_trust_score(CachedTrustScore {
            id_domain: "x".to_string(),
            agent_id: "a".to_string(),
            score: TrustScore { expected_pv_roi: 9_000_000, total_volume: 1_000_000_000, data_points: 3 },
            from_peer: "peerB".to_string(),
            cached_at: NOW,
        })
        .unwrap();
    let mut node = TrustNode::new(store);
    let step = node.begin_query(&query_for("x", "a", 0), &Vec::new(), NOW, 1);
    // the zero-weight contribution leaves an entry with no effective volume,
    // so the agent's merged score is the neutral default
    let score = single_score(step, "x", "a");
    assert_eq!(score.expected_pv_roi, SCALE as i64);
    assert_eq!(score.total_volume, 0);
}

#[test]
fn partial_failure_keeps_the_one_answer() {
    // peers B, C, D are consulted; C and D fail; the reply is B's alone
    let mut store = TrustStore::new();
    store.add_peer(peer("peerB", SCALE as i64)).unwrap();
    store.add_peer(peer("peerC", SCALE as i64)).unwrap();
    store.add_peer(peer("peerD", SCALE as i64)).unwrap();
    let mut node = TrustNode::new(store);

    let connected: Vec<String> =
        vec!["peerB".to_string(), "peerC".to_string(), "peerD".to_string()];
    let step = node.begin_query(&query_for("x", "a", 1), &connected, NOW, 9);
    let subs = match step {
        QueryStep::Suspended(subs) => subs,
        _ => panic!("expected a fan-out"),
    };
    assert_eq!(subs.len(), 3);

    let b_reply = TrustResponse {
        scores: vec![AgentScore::new(
            "x".to_string(),
            "a".to_string(),
            TrustScore { expected_pv_roi: 1_100_000, total_volume: 700_000_000, data_points: 2 },
        )],
        timestamp: NOW,
    };
    assert!(node.on_response(subs[0].request_id, &"peerB".to_string(), b_reply, NOW).is_none());
    assert!(node.on_failure(subs[1].request_id, &"peerC".to_string(), NOW).is_none());
    let out = node.on_failure(subs[2].request_id, &"peerD".to_string(), NOW);
    let (token, result) = out.expect("the waiting set drained");
    assert_eq!(token, 9);
    let reply = match result {
        Ok(r) => r,
        Err(_) => panic!("one answer arrived, so the query succeeds"),
    };
    assert_eq!(reply.scores.len(), 1);
    assert_eq!(reply.scores[0].score.expected_pv_roi, 1_100_000);
    assert_eq!(reply.scores[0].score.total_volume, 700_000_000);
}

#[test]
fn all_failures_with_no_data_is_an_error() {
    let mut store = TrustStore::new();
    store.add_peer(peer("peerB", SCALE as i64)).unwrap();
    let mut node = TrustNode::new(store);

    let connected: Vec<String> = vec!["peerB".to_string()];
    let step = node.begin_query(&query_for("x", "a", 1), &connected, NOW, 3);
    let subs = match step {
        QueryStep::Suspended(subs) => subs,
        _ => panic!("expected a fan-out"),
    };
    let out = node.on_failure(subs[0].request_id, &"peerB".to_string(), NOW);
    let (_, result) = out.expect("the waiting set drained");
    match result {
        Err(e) => assert_eq!(e, TrustError::AllRequestsFailed),
        Ok(_) => panic!("nothing arrived, so the query fails"),
    }
}

#[test]
fn mismatched_response_is_cached_but_not_counted() {
    let mut store = TrustStore::new();
    store.add_peer(peer("peerB", SCALE as i64)).unwrap();
    let mut node = TrustNode::new(store);

    let step = node.begin_query(&query_for("x", "a", 1), &vec!["peerB".to_string()], NOW, 5);
    let subs = match step {
        QueryStep::Suspended(subs) => subs,
        _ => panic!("expected a fan-out"),
    };
    let stray = TrustResponse {
        scores: vec![AgentScore::new(
            "x".to_string(),
            "a".to_string(),
            TrustScore { expected_pv_roi: 1_300_000, total_volume: 10_000_000, data_points: 1 },
        )],
        timestamp: NOW,
    };
    // a response attributed to a peer the record is not waiting on
    let out = node.on_response(subs[0].request_id, &"someoneElse".to_string(), stray, NOW);
    assert!(out.is_none());
    assert_eq!(node.pending.len(), 1);
    let rows = node.store.get_cached_scores(&"x".to_string(), &"a".to_string());
    assert_eq!(rows.len(), 1);
    assert_eq!(rows[0].from_peer, "someoneElse".to_string());
}

#[test]
fn invalid_query_is_rejected() {
    let mut node = TrustNode::new(TrustStore::new());
    let bad = TrustQuery {
        agents: vec![AgentIdentifier::new("".to_string(), "a".to_string())],
        max_depth: 0,
        point_in_time: None,
        forget_rate: None,
    };
    let step = node.begin_query(&bad, &Vec::new(), NOW, 1);
    assert!(matches!(step, QueryStep::Failed(TrustError::Input)));
}

#[test]
fn merge_responses_groups_by_agent() {
    let score = |roi: i64, vol: u64, dp: u64| TrustScore {
        expected_pv_roi: roi,
        total_volume: vol,
        data_points: dp,
    };
    let r1 = TrustResponse {
        scores: vec![AgentScore::new("x".to_string(), "a".to_string(), score(1_000_000, 100_000_000, 1))],
        timestamp: NOW,
    };
    let r2 = TrustResponse {
        scores: vec![
            AgentScore::new("x".to_string(), "a".to_string(), score(2_000_000, 300_000_000, 2)),
            AgentScore::new("x".to_string(), "b".to_string(), score(500_000, 50_000_000, 1)),
        ],
        timestamp: NOW,
    };
    let merged = merge_responses(vec![r1, r2], NOW);
    assert_eq!(merged.scores.len(), 2);
    let a = merged.scores.iter().find(|s| s.agent_id == "a".to_string()).unwrap();
    // (1.0 * 100 + 2.0 * 300) / 400 = 1.75
    assert_eq!(a.score.expected_pv_roi, 1_750_000);
    assert_eq!(a.score.total_volume, 400_000_000);
    assert_eq!(a.score.data_points, 3);
    let b = merged.scores.iter().find(|s| s.agent_id == "b".to_string()).unwrap();
    assert_eq!(b.score.total_volume, 50_000_000);
}

#[test]
fn fusion_is_order_independent_on_values() {
    let entry = |src: Source, roi: i64, vol: u64, dp: u64, w: i64| Contribution {
        source: src,
        score: TrustScore { expected_pv_roi: roi, total_volume: vol, data_points: dp },
        weight: w,
    };
    let a = entry(Source::Local, 1_200_000, 1_000_000_000, 2, SCALE as i64);
    let b = entry(Source::Peers, 800_000, 500_000_000, 1, SCALE as i64);
    let c = entry(Source::Cached("p".to_string()), 600_000, 250_000_000, 4, -(SCALE as i64) / 2);
    let one = trust_node::score::merge_contributions(&vec![a.clone(), b.clone(), c.clone()]);
    let two = trust_node::score::merge_contributions(&vec![c, a, b]);
    assert_eq!(one, two);
}

#[test]
fn signed_weight_reflection_agrees() {
    // merging s at +w and its reflection around break-even at -w agree
    let s = TrustScore { expected_pv_roi: 600_000, total_volume: 1_000_000_000, data_points: 3 };
    let reflected = TrustScore { expected_pv_roi: 2 * SCALE as i64 - 600_000, ..s };
    let w: i64 = 400_000;
    let base = TrustScore::default();
    let plus = base.merge_with(&s, w);
    let minus = base.merge_with(&reflected, -w);
    assert_eq!(plus.expected_pv_roi, minus.expected_pv_roi);
    assert_eq!(plus.total_volume, minus.total_volume);
}

#[test]
fn merge_with_and_merge_multiple_agree() {
    let s1 = TrustScore { expected_pv_roi: 1_200_000, total_volume: 1_000_000_000, data_points: 2 };
    let s2 = TrustScore { expected_pv_roi: 800_000, total_volume: 500_000_000, data_points: 1 };
    let a = s1.merge_with(&s2, SCALE as i64);
    let b = TrustScore::merge_multiple(vec![(s1, SCALE as i64), (s2, SCALE as i64)]);
    assert_eq!(a, b);
    assert!((a.expected_pv_roi - 1_066_667).abs() < 1_000);
    // the neutral default is an identity on the expected ROI
    assert_eq!(TrustScore::merge_multiple(vec![]), TrustScore::default());
}

#[test]
fn record_experience_assigns_id_and_stores() {
    let mut node = TrustNode::new(TrustStore::new());
    let stored = node
        .record_experience(
            "x".to_string(),
            "a".to_string(),
            1_100_000,
            250_000_000,
            Some("first deal".to_string()),
            None,
        )
        .expect("a valid experience is accepted");
    assert_eq!(stored.id.len(), 36);
    assert_eq!(stored.invested_volume, 250_000_000);
    let back = node.store.get_experiences(&"x".to_string(), &"a".to_string());
    assert_eq!(back.len(), 1);
    assert_eq!(back[0].id, stored.id);
    // a non-positive volume is rejected at the boundary
    let bad = node.record_experience("x".to_string(), "a".to_string(), 1_000_000, 0, None, None);
    match bad {
        Err(e) => assert_eq!(e, TrustError::Input),
        Ok(_) => panic!("a zero volume must be rejected"),
    }
}

#[test]
fn connect_plan_dials_only_disconnected_peers() {
    let mut store = TrustStore::new();
    store.add_peer(peer("peerB", SCALE as i64)).unwrap();
    store.add_peer(peer("peerC", SCALE as i64)).unwrap();
    let node = TrustNode::new(store);
    let plan = node.connect_plan(&vec!["peerB".to_string()]);
    assert_eq!(plan.len(), 1);
    match &plan[0] {
        trust_node::node::DialAction::DialHandle { handle } => {
            assert_eq!(handle, &"peerC".to_string())
        }
        _ => panic!("a bare handle is dialed as-is"),
    }
}

#[test]
fn registry_capacity_is_a_busy_error() {
    let mut store = TrustStore::new();
    for i in 0..4096u32 {
        store.add_peer(peer(&format!("peer{}", i), 0)).unwrap();
    }
    let overflow = peer("one_too_many", 0);
    assert_eq!(store.add_peer(overflow), Err(TrustError::Busy));
}

#[test]
fn connect_plan_caps_attempts_per_tick() {
    let mut store = TrustStore::new();
    for i in 0..7u32 {
        store.add_peer(peer(&format!("node{}", i), 0)).unwrap();
    }
    let node = TrustNode::new(store);
    let plan = node.connect_plan(&Vec::new());
    assert_eq!(plan.len(), 5);
}

#[test]
fn pending_cap_makes_new_queries_busy() {
    let mut store = TrustStore::new();
    store.add_peer(peer("peerB", 0)).unwrap();
    let mut node = TrustNode::new(store);
    let connected: Vec<String> = vec!["peerB".to_string()];
    for token in 0..1024u64 {
        let step = node.begin_query(&query_for("x", "a", 1), &connected, NOW, token);
        assert!(matches!(step, QueryStep::Suspended(_)));
    }
    let step = node.begin_query(&query_for("x", "a", 1), &connected, NOW, 9999);
    assert!(matches!(step, QueryStep::Failed(TrustError::Busy)));
}

#[test]
fn depth_zero_reply_is_deterministic() {
    // the depth-zero answer is a function of the ledger, the cache and the
    // registry alone: asking twice gives the same reply
    let mut store = TrustStore::new();
    store.add_experience(experience("a", "x", "a", 1_200_000, 1_000_000_000, NOW)).unwrap();
    let mut node = TrustNode::new(store);
    let one = single_score(node.begin_query(&query_for("x", "a", 0), &Vec::new(), NOW, 1), "x", "a");
    let two = single_score(node.begin_query(&query_for("x", "a", 0), &Vec::new(), NOW, 2), "x", "a");
    assert_eq!(one, two);
}
