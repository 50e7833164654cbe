//! The network actor's decision core: the peer registry, the pending-request
//! table and the fan-out / fan-in query coordinator. Everything here is a
//! pure state machine: the surrounding process performs the sends, dials and
//! waits, and feeds events back in.
use vstd::prelude::*;
use vstd::arithmetic::div_mod::{lemma_div_is_ordered, lemma_div_is_ordered_by_denominator,
    lemma_div_multiples_vanish};
use vstd::arithmetic::mul::lemma_mul_inequality;
use crate::engine::{calculate_trust_score, local_score_spec};
use crate::score::{div_trunc, merge_contributions, merged_score, Contribution, Source};
use crate::store::{agent_volume, agent_volume_of, cached_for, exps_for,
    lemma_agent_volume_nonneg, TrustStore};
use crate::types::{AgentIdentifier, AgentScore, CachedTrustScore, Peer, TrustExperience,
    TrustQuery, TrustResponse, TrustScore};
use crate::outside::{new_experience_id, now_epoch_seconds, parse_peer_multiaddr, peer_id_of};
use crate::{TrustError, MAX_CONNECTION_ATTEMPTS, MAX_CONTRIBS, MAX_PEERS, MAX_PENDING, PHI_CAP,
    ROI_CAP, SCALE, TS_CAP, VOL_CAP};

verus! {

/// The first registered peer carrying the given handle, if any.
pub open spec fn find_peer_spec(ps: Seq<Peer>, handle: Seq<char>) -> Option<Peer>
    decreases ps.len(),
{
    if ps.len() == 0 {
        None
    } else if ps[0].peer_id@ == handle {
        Some(ps[0])
    } else {
        find_peer_spec(ps.drop_first(), handle)
    }
}

/// Whether a list of handles holds the given one.
pub open spec fn has_handle(hs: Seq<String>, h: Seq<char>) -> bool {
    exists|i: int| 0 <= i < hs.len() && (#[trigger] hs[i])@ == h
}

/// Cache age decay: `86400 * SCALE / (86400 + age_seconds)`, age clamped at
/// zero. A fresh opinion weighs fully, a day-old one half.
pub open spec fn cache_age_factor(now: int, cached_at: int) -> int {
    let age = if now >= cached_at {
        now - cached_at
    } else {
        0
    };
    86400 * (SCALE as int) / (86400 + age)
}

/// A cached opinion's signed fusion weight: the recommending peer's quality
/// scaled by the cache age factor, rounded toward zero.
pub open spec fn cached_weight(quality: int, factor: int) -> int {
    div_trunc(quality * factor, SCALE as int)
}

/// The contributions one agent's cached opinions put on the table: rows
/// whose recommending peer is still registered, each weighted by that
/// peer's quality and the cache age; rows from unknown peers are ignored.
/// At most `budget` rows contribute.
pub open spec fn cached_entries_spec(
    rows: Seq<CachedTrustScore>,
    registry: Seq<Peer>,
    now: int,
    budget: int,
) -> Seq<Contribution>
    decreases rows.len(),
{
    if rows.len() == 0 || budget <= 0 {
        Seq::empty()
    } else {
        match find_peer_spec(registry, rows[0].from_peer@) {
            Some(peer) => seq![
                Contribution {
                    source: Source::Cached(rows[0].from_peer),
                    score: rows[0].score,
                    weight: cached_weight(
                        peer.recommender_quality as int,
                        cache_age_factor(now, rows[0].cached_at as int),
                    ) as i64,
                },
            ] + cached_entries_spec(rows.drop_first(), registry, now, budget - 1),
            None => cached_entries_spec(rows.drop_first(), registry, now, budget),
        }
    }
}

/// Phase 1 of a query, for one agent: the local score (when it carries any
/// volume) at full weight, then the cached opinions.
pub open spec fn agent_entries_spec(
    es: Seq<TrustExperience>,
    cs: Seq<CachedTrustScore>,
    registry: Seq<Peer>,
    agent: AgentIdentifier,
    t: int,
    phi: int,
    now: int,
) -> Seq<Contribution> {
    let local = local_score_spec(exps_for(es, agent.id_domain@, agent.agent_id@), t, phi);
    (if local.total_volume > 0 {
        seq![Contribution { source: Source::Local, score: local, weight: SCALE as i64 }]
    } else {
        Seq::empty()
    }) + cached_entries_spec(
        cached_for(cs, agent.id_domain@, agent.agent_id@),
        registry,
        now,
        MAX_PEERS as int,
    )
}

/// The whole phase-1 contribution table: one row per distinct agent of the
/// query that has at least one contribution, in first-occurrence order.
pub open spec fn phase1_table_spec(
    es: Seq<TrustExperience>,
    cs: Seq<CachedTrustScore>,
    registry: Seq<Peer>,
    agents: Seq<AgentIdentifier>,
    t: int,
    phi: int,
    now: int,
) -> Seq<(AgentIdentifier, Seq<Contribution>)>
    decreases agents.len(),
{
    if agents.len() == 0 {
        Seq::empty()
    } else {
        let rest = phase1_table_spec(es, cs, registry, agents.drop_last(), t, phi, now);
        let agent = agents.last();
        if (exists|j: int|
            0 <= j < agents.len() - 1 && (#[trigger] agents[j]).id_domain@ == agent.id_domain@
                && agents[j].agent_id@ == agent.agent_id@) {
            rest
        } else {
            let entries = agent_entries_spec(es, cs, registry, agent, t, phi, now);
            if entries.len() == 0 {
                rest
            } else {
                rest.push((agent, entries))
            }
        }
    }
}

/// One row of the contribution table: an agent and the contributions that
/// have piled up under its key.
pub struct AgentContributions {
    pub agent: AgentIdentifier,
    pub entries: Vec<Contribution>,
}

/// What the exec table stands for.
pub open spec fn table_view(t: Seq<AgentContributions>) -> Seq<(AgentIdentifier, Seq<Contribution>)> {
    t.map_values(|row: AgentContributions| (row.agent, row.entries@))
}

/// Every row's agent is well-formed, entries are well-formed fusion inputs,
/// no agent key repeats, every row has a contribution, and no row holds
/// more than `max_entries` of them.
pub open spec fn table_wf(t: Seq<AgentContributions>, max_entries: int) -> bool {
    &&& forall|i: int| 0 <= i < t.len() ==> (#[trigger] t[i]).agent.wf()
    &&& forall|i: int| 0 <= i < t.len() ==> 1 <= (#[trigger] t[i]).entries@.len() <= max_entries
    &&& forall|i: int, k: int|
        0 <= i < t.len() && 0 <= k < (#[trigger] t[i]).entries@.len() ==> (
        #[trigger] t[i].entries@[k]).wf()
    &&& forall|i: int, j: int|
        0 <= i < j < t.len() ==> !((#[trigger] t[i]).agent.id_domain@ == (
        #[trigger] t[j]).agent.id_domain@ && t[i].agent.agent_id@ == t[j].agent.agent_id@)
}

fn find_peer(registry: &Vec<Peer>, handle: &String) -> (r: Option<Peer>)
    ensures
        r == find_peer_spec(registry@, handle@),
{
    let ghost ps = registry@;
    let mut i: usize = 0;
    proof {
        assert(ps.subrange(0, ps.len() as int) =~= ps);
    }
    while i < registry.len()
        invariant
            0 <= i <= ps.len(),
            registry@ == ps,
            find_peer_spec(ps, handle@) == find_peer_spec(
                ps.subrange(i as int, ps.len() as int),
                handle@,
            ),
        decreases ps.len() - i,
    {
        let ghost suffix = ps.subrange(i as int, ps.len() as int);
        proof {
            assert(suffix[0] == ps[i as int]);
            assert(suffix.drop_first() =~= ps.subrange(i + 1, ps.len() as int));
        }
        if registry[i].peer_id == *handle {
            return Some(registry[i].clone());
        }
        i += 1;
    }
    proof {
        assert(ps.subrange(ps.len() as int, ps.len() as int) =~= Seq::<Peer>::empty());
    }
    None
}

fn contains_handle(hs: &Vec<String>, h: &String) -> (r: bool)
    ensures
        r == has_handle(hs@, h@),
{
    let mut i: usize = 0;
    while i < hs.len()
        invariant
            0 <= i <= hs@.len(),
            forall|k: int| 0 <= k < i ==> (#[trigger] hs@[k])@ != h@,
        decreases hs@.len() - i,
    {
        if hs[i] == *h {
            return true;
        }
        i += 1;
    }
    false
}

fn cache_age_factor_exec(now: i64, cached_at: i64) -> (r: u64)
    requires
        0 <= now <= TS_CAP,
        0 <= cached_at <= TS_CAP,
    ensures
        r as int == cache_age_factor(now as int, cached_at as int),
        r <= SCALE,
{
    let age: i64 = if now >= cached_at {
        now - cached_at
    } else {
        0
    };
    let denom: u64 = 86400 + (age as u64);
    let r: u64 = (86400 * SCALE) / denom;
    proof {
        lemma_div_is_ordered_by_denominator(86400 * (SCALE as int), 86400, denom as int);
        lemma_div_multiples_vanish(SCALE as int, 86400);
    }
    r
}

fn cached_weight_exec(quality: i64, factor: u64) -> (r: i64)
    requires
        -(SCALE as i64) <= quality <= SCALE as i64,
        factor <= SCALE,
    ensures
        r as int == cached_weight(quality as int, factor as int),
        -(SCALE as i64) <= r <= SCALE as i64,
{
    let qabs: u64 = if quality < 0 {
        (-quality) as u64
    } else {
        quality as u64
    };
    proof {
        assert((qabs as int) * (factor as int) <= (SCALE as int) * (SCALE as int))
            by (nonlinear_arith)
            requires
                0 <= qabs as int <= SCALE as int,
                0 <= factor as int <= SCALE as int,
        ;
    }
    let m: u64 = (qabs * factor) / SCALE;
    proof {
        assert((qabs as int) * (factor as int) == (factor as int) * (qabs as int))
            by (nonlinear_arith);
        assert((qabs as int) * (SCALE as int) == (SCALE as int) * (qabs as int))
            by (nonlinear_arith);
        lemma_mul_inequality(factor as int, SCALE as int, qabs as int);
        lemma_div_is_ordered((qabs as int) * (factor as int), (SCALE as int) * (qabs as int),
            SCALE as int);
        lemma_div_multiples_vanish(qabs as int, SCALE as int);
        assert(m <= qabs);
        if quality < 0 {
            assert((quality as int) * (factor as int) == -((qabs as int) * (factor as int)))
                by (nonlinear_arith)
                requires
                    qabs as int == -(quality as int),
            ;
        }
    }
    if quality < 0 {
        -(m as i64)
    } else {
        m as i64
    }
}

/// Builds the phase-1 contributions of one agent: the local score when it
/// carries volume, then every cached opinion whose recommending peer is
/// still registered, quality- and age-weighted.
fn build_agent_entries(
    store: &TrustStore,
    agent: &AgentIdentifier,
    t: i64,
    phi: i64,
    now: i64,
) -> (r: Vec<Contribution>)
    requires
        store.wf(),
        0 <= t <= TS_CAP,
        0 <= phi <= PHI_CAP,
        0 <= now <= TS_CAP,
    ensures
        r@ == agent_entries_spec(
            store.experiences@,
            store.cached@,
            store.peers@,
            *agent,
            t as int,
            phi as int,
            now as int,
        ),
        r@.len() <= 1 + MAX_PEERS,
        forall|k: int| 0 <= k < r@.len() ==> (#[trigger] r@[k]).wf(),
    {
    let ghost registry = store.peers@;
    let mut entries: Vec<Contribution> = Vec::new();
    let local = calculate_trust_score(store, &agent.id_domain, &agent.agent_id, t, phi);
    if local.total_volume > 0 {
        entries.push(Contribution { source: Source::Local, score: local, weight: SCALE as i64 });
    }
    let ghost local_part = entries@;
    let rows = store.cached_rows_for(&agent.id_domain, &agent.agent_id);
    let ghost rs = rows@;
    proof {
        lemma_cached_for_wf(store.cached@, agent.id_domain@, agent.agent_id@);
    }
    let mut budget: usize = MAX_PEERS;
    let mut i: usize = 0;
    proof {
        assert(rs.subrange(0, rs.len() as int) =~= rs);
        assert(local_part + cached_entries_spec(rs, registry, now as int, MAX_PEERS as int)
            =~= local_part + cached_entries_spec(
            rs.subrange(0, rs.len() as int),
            registry,
            now as int,
            MAX_PEERS as int,
        ));
    }
    while i < rows.len() && budget > 0
        invariant
            0 <= i <= rs.len(),
            rows@ == rs,
            store.wf(),
            registry == store.peers@,
            0 <= now <= TS_CAP,
            forall|k: int| 0 <= k < rs.len() ==> (#[trigger] rs[k]).wf(),
            0 <= budget <= MAX_PEERS,
            entries@.len() == local_part.len() + (MAX_PEERS - budget),
            local_part.len() <= 1,
            forall|k: int| 0 <= k < entries@.len() ==> (#[trigger] entries@[k]).wf(),
            local_part + cached_entries_spec(rs, registry, now as int, MAX_PEERS as int) == entries@
                + cached_entries_spec(
                rs.subrange(i as int, rs.len() as int),
                registry,
                now as int,
                budget as int,
            ),
        decreases rs.len() - i,
    {
        let ghost suffix = rs.subrange(i as int, rs.len() as int);
        proof {
            assert(suffix[0] == rs[i as int]);
            assert(suffix.drop_first() =~= rs.subrange(i + 1, rs.len() as int));
        }
        let row = &rows[i];
        assert(rs[i as int].wf());
        match find_peer(&store.peers, &row.from_peer) {
            Some(peer) => {
                assert(peer.wf()) by {
                    lemma_find_peer_wf(registry, row.from_peer@);
                }
                let factor = cache_age_factor_exec(now, row.cached_at);
                let w = cached_weight_exec(peer.recommender_quality, factor);
                let c = Contribution {
                    source: Source::Cached(row.from_peer.clone()),
                    score: row.score,
                    weight: w,
                };
                proof {
                    let spec_head = seq![
                        Contribution {
                            source: Source::Cached(rs[i as int].from_peer),
                            score: rs[i as int].score,
                            weight: cached_weight(
                                peer.recommender_quality as int,
                                cache_age_factor(now as int, rs[i as int].cached_at as int),
                            ) as i64,
                        },
                    ];
                    assert(c == spec_head[0]);
                    assert(entries@ + (spec_head + cached_entries_spec(
                        rs.subrange(i + 1, rs.len() as int),
                        registry,
                        now as int,
                        budget - 1,
                    )) =~= entries@.push(c) + cached_entries_spec(
                        rs.subrange(i + 1, rs.len() as int),
                        registry,
                        now as int,
                        budget - 1,
                    ));
                }
                entries.push(c);
                budget = budget - 1;
            },
            None => {},
        }
        i += 1;
    }
    proof {
        let suffix = rs.subrange(i as int, rs.len() as int);
        if i == rs.len() {
            assert(suffix =~= Seq::<CachedTrustScore>::empty());
            assert(cached_entries_spec(suffix, registry, now as int, budget as int) =~= Seq::<
                Contribution,
            >::empty());
        } else {
            assert(budget == 0);
            assert(cached_entries_spec(suffix, registry, now as int, 0) =~= Seq::<
                Contribution,
            >::empty());
        }
        assert(entries@ + Seq::<Contribution>::empty() =~= entries@);
        assert(entries@ == local_part + cached_entries_spec(
            rs,
            registry,
            now as int,
            MAX_PEERS as int,
        ));
    }
    entries
}

/// Every cached row the per-agent filter keeps is well-formed when the
/// whole cache table is.
proof fn lemma_cached_for_wf(cs: Seq<CachedTrustScore>, d: Seq<char>, a: Seq<char>)
    requires
        forall|i: int| 0 <= i < cs.len() ==> (#[trigger] cs[i]).wf(),
    ensures
        forall|k: int|
            0 <= k < cached_for(cs, d, a).len() ==> (#[trigger] cached_for(cs, d, a)[k]).wf(),
    decreases cs.len(),
{
    if cs.len() > 0 {
        assert(forall|i: int|
            0 <= i < cs.drop_first().len() ==> #[trigger] cs.drop_first()[i] == cs[i + 1]);
        lemma_cached_for_wf(cs.drop_first(), d, a);
        let w = cached_for(cs, d, a);
        let wt = cached_for(cs.drop_first(), d, a);
        if cs[0].id_domain@ == d && cs[0].agent_id@ == a {
            assert(w =~= seq![cs[0]] + wt);
            assert forall|k: int| 0 <= k < w.len() implies (#[trigger] w[k]).wf() by {
                if k > 0 {
                    assert(w[k] == wt[k - 1]);
                }
            }
        } else {
            assert(w == wt);
            assert forall|k: int| 0 <= k < w.len() implies (#[trigger] w[k]).wf() by {
                assert(wt[k].wf());
            }
        }
    }
}

/// A found registry entry is one of the registry's rows, hence well-formed
/// when the registry is.
proof fn lemma_find_peer_wf(ps: Seq<Peer>, handle: Seq<char>)
    requires
        forall|i: int| 0 <= i < ps.len() ==> (#[trigger] ps[i]).wf(),
    ensures
        find_peer_spec(ps, handle) matches Some(p) ==> p.wf() && p.peer_id@ == handle,
    decreases ps.len(),
{
    if ps.len() > 0 && ps[0].peer_id@ != handle {
        assert(forall|i: int|
            0 <= i < ps.drop_first().len() ==> #[trigger] ps.drop_first()[i] == ps[i + 1]);
        lemma_find_peer_wf(ps.drop_first(), handle);
    }
}

/// The phase-1 entries of an agent depend only on the agent's key.
proof fn lemma_agent_entries_key_only(
    es: Seq<TrustExperience>,
    cs: Seq<CachedTrustScore>,
    registry: Seq<Peer>,
    a1: AgentIdentifier,
    a2: AgentIdentifier,
    t: int,
    phi: int,
    now: int,
)
    requires
        a1.id_domain@ == a2.id_domain@,
        a1.agent_id@ == a2.agent_id@,
    ensures
        agent_entries_spec(es, cs, registry, a1, t, phi, now) == agent_entries_spec(
            es,
            cs,
            registry,
            a2,
            t,
            phi,
            now,
        ),
{
}

/// Whether the table already holds a row for the agent key `(d, a)`.
pub open spec fn table_has_key(t: Seq<AgentContributions>, d: Seq<char>, a: Seq<char>) -> bool {
    exists|i: int|
        0 <= i < t.len() && (#[trigger] t[i]).agent.id_domain@ == d && t[i].agent.agent_id@ == a
}

fn table_find_key(t: &Vec<AgentContributions>, d: &String, a: &String) -> (r: Option<usize>)
    ensures
        r matches Some(i) ==> 0 <= i < t@.len() && t@[i as int].agent.id_domain@ == d@
            && t@[i as int].agent.agent_id@ == a@,
        r is None ==> !table_has_key(t@, d@, a@),
{
    let mut i: usize = 0;
    while i < t.len()
        invariant
            0 <= i <= t@.len(),
            forall|k: int|
                0 <= k < i ==> !((#[trigger] t@[k]).agent.id_domain@ == d@
                    && t@[k].agent.agent_id@ == a@),
        decreases t@.len() - i,
    {
        if t[i].agent.id_domain == *d && t[i].agent.agent_id == *a {
            return Some(i);
        }
        i += 1;
    }
    None
}

/// Builds the whole phase-1 contribution table for a query's agents: one
/// row per distinct agent that has at least one contribution, in
/// first-occurrence order.
fn build_table(
    store: &TrustStore,
    agents: &Vec<AgentIdentifier>,
    t: i64,
    phi: i64,
    now: i64,
) -> (r: Vec<AgentContributions>)
    requires
        store.wf(),
        forall|i: int| 0 <= i < agents@.len() ==> (#[trigger] agents@[i]).wf(),
        0 <= t <= TS_CAP,
        0 <= phi <= PHI_CAP,
        0 <= now <= TS_CAP,
    ensures
        table_view(r@) == phase1_table_spec(
            store.experiences@,
            store.cached@,
            store.peers@,
            agents@,
            t as int,
            phi as int,
            now as int,
        ),
        table_wf(r@, 1 + MAX_PEERS),
{
    let ghost es = store.experiences@;
    let ghost cs = store.cached@;
    let ghost reg = store.peers@;
    let ghost ags = agents@;
    let mut table: Vec<AgentContributions> = Vec::new();
    let mut i: usize = 0;
    proof {
        assert(ags.subrange(0, 0) =~= Seq::<AgentIdentifier>::empty());
        assert(table_view(table@) =~= Seq::<(AgentIdentifier, Seq<Contribution>)>::empty());
    }
    while i < agents.len()
        invariant
            0 <= i <= ags.len(),
            agents@ == ags,
            store.wf(),
            es == store.experiences@,
            cs == store.cached@,
            reg == store.peers@,
            0 <= t <= TS_CAP,
            0 <= phi <= PHI_CAP,
            0 <= now <= TS_CAP,
            forall|k: int| 0 <= k < ags.len() ==> (#[trigger] ags[k]).wf(),
            table_view(table@) == phase1_table_spec(es, cs, reg, ags.subrange(0, i as int),
                t as int, phi as int, now as int),
            table_wf(table@, 1 + MAX_PEERS),
            forall|k: int|
                0 <= k < table@.len() ==> exists|j: int|
                    0 <= j < i && (#[trigger] ags[j]).id_domain@ == (
                    #[trigger] table@[k]).agent.id_domain@ && ags[j].agent_id@
                        == table@[k].agent.agent_id@,
            forall|j: int|
                0 <= j < i && agent_entries_spec(es, cs, reg, #[trigger] ags[j], t as int,
                    phi as int, now as int).len() > 0 ==> table_has_key(
                    table@,
                    ags[j].id_domain@,
                    ags[j].agent_id@,
                ),
        decreases ags.len() - i,
    {
        let agent = &agents[i];
        let ghost prefix = ags.subrange(0, i as int);
        let ghost prefix1 = ags.subrange(0, i + 1);
        proof {
            assert(prefix1.drop_last() =~= prefix);
            assert(prefix1.last() == ags[i as int]);
            assert(forall|j: int| 0 <= j < i ==> #[trigger] prefix1[j] == ags[j]);
        }
        let dup = table_find_key(&table, &agent.id_domain, &agent.agent_id);
        match dup {
            Some(idx) => {
                proof {
                    let k = idx as int;
                    assert(table@[k].agent.id_domain@ == ags[i as int].id_domain@
                        && table@[k].agent.agent_id@ == ags[i as int].agent_id@);
                    let j = choose|j: int|
                        0 <= j < i && (#[trigger] ags[j]).id_domain@ == table@[
                            k
                        ].agent.id_domain@ && ags[j].agent_id@ == table@[k].agent.agent_id@;
                    assert(prefix1[j].id_domain@ == prefix1.last().id_domain@ && prefix1[
                        j
                    ].agent_id@ == prefix1.last().agent_id@);
                    assert(exists|j2: int|
                        0 <= j2 < prefix1.len() - 1 && (#[trigger] prefix1[j2]).id_domain@
                            == prefix1.last().id_domain@ && prefix1[j2].agent_id@
                            == prefix1.last().agent_id@);
                    assert(phase1_table_spec(es, cs, reg, prefix1, t as int, phi as int,
                        now as int) == phase1_table_spec(es, cs, reg, prefix, t as int, phi as int,
                        now as int));
                    assert(table_has_key(table@, ags[i as int].id_domain@,
                        ags[i as int].agent_id@));
                }
            },
            None => {
                let entries = build_agent_entries(store, agent, t, phi, now);
                proof {
                    if exists|j: int|
                        0 <= j < i && (#[trigger] ags[j]).id_domain@ == ags[i as int].id_domain@
                            && ags[j].agent_id@ == ags[i as int].agent_id@ {
                        let j = choose|j: int|
                            0 <= j < i && (#[trigger] ags[j]).id_domain@
                                == ags[i as int].id_domain@ && ags[j].agent_id@
                                == ags[i as int].agent_id@;
                        lemma_agent_entries_key_only(es, cs, reg, ags[j], ags[i as int], t as int,
                            phi as int, now as int);
                        assert(agent_entries_spec(es, cs, reg, ags[j], t as int, phi as int,
                            now as int).len() == 0);
                        assert(entries@.len() == 0);
                    }
                }
                if entries.len() > 0 {
                    proof {
                        assert(!(exists|j: int|
                            0 <= j < i && (#[trigger] ags[j]).id_domain@
                                == ags[i as int].id_domain@ && ags[j].agent_id@
                                == ags[i as int].agent_id@));
                        assert forall|j2: int|
                            0 <= j2 < prefix1.len() - 1 implies !((#[trigger] prefix1[
                            j2]).id_domain@ == prefix1.last().id_domain@ && prefix1[j2].agent_id@
                            == prefix1.last().agent_id@) by {
                            assert(prefix1[j2] == ags[j2]);
                        }
                    }
                    let row = AgentContributions { agent: agent.clone(), entries };
                    let ghost old_table = table@;
                    table.push(row);
                    proof {
                        assert(table_view(table@) =~~= table_view(old_table).push(
                            (row.agent, row.entries@),
                        ));
                        assert(row.agent == ags[i as int]);
                        assert(row.entries@ == agent_entries_spec(es, cs, reg, prefix1.last(),
                            t as int, phi as int, now as int));
                        assert(table_view(table@) =~~= phase1_table_spec(es, cs, reg, prefix1,
                            t as int, phi as int, now as int));
                        assert(forall|k: int|
                            0 <= k < old_table.len() ==> #[trigger] table@[k] == old_table[k]);
                        assert(table@[old_table.len() as int].agent.id_domain@
                            == ags[i as int].id_domain@ && table@[
                            old_table.len() as int].agent.agent_id@ == ags[i as int].agent_id@);
                        assert forall|j: int|
                            0 <= j < i + 1 && agent_entries_spec(es, cs, reg, #[trigger] ags[j],
                                t as int, phi as int, now as int).len() > 0 implies table_has_key(
                            table@, ags[j].id_domain@, ags[j].agent_id@) by {
                            if j < i {
                                assert(table_has_key(old_table, ags[j].id_domain@,
                                    ags[j].agent_id@));
                                let k = choose|k: int|
                                    0 <= k < old_table.len() && (#[trigger] old_table[
                                    k]).agent.id_domain@ == ags[j].id_domain@ && old_table[
                                    k].agent.agent_id@ == ags[j].agent_id@;
                                assert(table@[k].agent.id_domain@ == ags[j].id_domain@);
                            } else {
                                assert(table@[old_table.len() as int].agent.id_domain@
                                    == ags[j].id_domain@);
                            }
                        }
                    }
                } else {
                    proof {
                        if !(exists|j: int|
                            0 <= j < i && (#[trigger] ags[j]).id_domain@
                                == ags[i as int].id_domain@ && ags[j].agent_id@
                                == ags[i as int].agent_id@) {
                            assert forall|j2: int|
                                0 <= j2 < prefix1.len() - 1 implies !((#[trigger] prefix1[
                                j2]).id_domain@ == prefix1.last().id_domain@ && prefix1[
                                j2].agent_id@ == prefix1.last().agent_id@) by {
                                assert(prefix1[j2] == ags[j2]);
                            }
                            assert(agent_entries_spec(es, cs, reg, prefix1.last(), t as int,
                                phi as int, now as int).len() == 0);
                        } else {
                            let j = choose|j: int|
                                0 <= j < i && (#[trigger] ags[j]).id_domain@
                                    == ags[i as int].id_domain@ && ags[j].agent_id@
                                    == ags[i as int].agent_id@;
                            assert(prefix1[j].id_domain@ == prefix1.last().id_domain@ && prefix1[
                                j].agent_id@ == prefix1.last().agent_id@);
                            assert(exists|j2: int|
                                0 <= j2 < prefix1.len() - 1 && (#[trigger] prefix1[j2]).id_domain@
                                    == prefix1.last().id_domain@ && prefix1[j2].agent_id@
                                    == prefix1.last().agent_id@);
                        }
                        assert(phase1_table_spec(es, cs, reg, prefix1, t as int, phi as int,
                            now as int) == phase1_table_spec(es, cs, reg, prefix, t as int,
                            phi as int, now as int));
                    }
                }
            },
        }
        i += 1;
    }
    proof {
        assert(ags.subrange(0, ags.len() as int) =~= ags);
    }
    table
}

/// Collapses a contribution table into the response scores: one
/// volume-weighted `AgentScore` per row, stamped with the given time. Every
/// emitted score has a nonnegative volume, and at least one data point
/// behind any positive volume.
pub fn merge_table(table: &Vec<AgentContributions>, now: i64) -> (r: TrustResponse)
    requires
        table_wf(table@, MAX_CONTRIBS as int),
    ensures
        r.timestamp == now,
        r.scores@.len() == table@.len(),
        forall|i: int|
            0 <= i < table@.len() ==> (#[trigger] r.scores@[i]).id_domain@
                == table@[i].agent.id_domain@ && r.scores@[i].agent_id@ == table@[i].agent.agent_id@
                && r.scores@[i].score == merged_score(table@[i].entries@),
        forall|i: int|
            0 <= i < r.scores@.len() ==> (#[trigger] r.scores@[i]).score.total_volume > 0
                ==> r.scores@[i].score.data_points >= 1,
        forall|i: int, j: int|
            0 <= i < j < r.scores@.len() ==> !((#[trigger] r.scores@[i]).id_domain@ == (
            #[trigger] r.scores@[j]).id_domain@ && r.scores@[i].agent_id@
                == r.scores@[j].agent_id@),
{
    let mut scores: Vec<AgentScore> = Vec::new();
    let mut i: usize = 0;
    while i < table.len()
        invariant
            0 <= i <= table@.len(),
            table_wf(table@, MAX_CONTRIBS as int),
            scores@.len() == i,
            forall|k: int|
                0 <= k < i ==> (#[trigger] scores@[k]).id_domain@ == table@[k].agent.id_domain@
                    && scores@[k].agent_id@ == table@[k].agent.agent_id@ && scores@[k].score
                    == merged_score(table@[k].entries@),
            forall|k: int|
                0 <= k < i ==> ((#[trigger] scores@[k]).score.total_volume > 0 ==> scores@[k].score.data_points >= 1),
        decreases table@.len() - i,
    {
        let row = &table[i];
        let merged = merge_contributions(&row.entries);
        let score = AgentScore {
            id_domain: row.agent.id_domain.clone(),
            agent_id: row.agent.agent_id.clone(),
            score: merged,
        };
        scores.push(score);
        i += 1;
    }
    TrustResponse { scores, timestamp: now }
}

/// The canonical identifier a registry handle answers under: the embedded
/// peer identifier when the handle is a multiaddress, else the handle
/// itself.
pub open spec fn canonical_id(handle: Seq<char>) -> Seq<char> {
    match peer_id_of(handle) {
        Some(id) => id,
        None => handle,
    }
}

pub open spec fn views_of(hs: Seq<String>) -> Seq<Seq<char>> {
    hs.map_values(|s: String| s@)
}

pub open spec fn has_view(vs: Seq<Seq<char>>, v: Seq<char>) -> bool {
    exists|i: int| 0 <= i < vs.len() && vs[i] == v
}

/// The peers a fan-out consults: each registered peer's canonical
/// identifier, kept when it is currently connected and not already chosen,
/// in registry order.
pub open spec fn fanout_targets_spec(reg: Seq<Peer>, connected: Seq<String>) -> Seq<Seq<char>>
    decreases reg.len(),
{
    if reg.len() == 0 {
        Seq::empty()
    } else {
        let rest = fanout_targets_spec(reg.drop_last(), connected);
        let c = canonical_id(reg.last().peer_id@);
        if has_handle(connected, c) && !has_view(rest, c) {
            rest.push(c)
        } else {
            rest
        }
    }
}

/// How an aggregated peer response enters the fusion: at full weight, its
/// quality weighting already applied by the responding node.
pub open spec fn peer_contribution(s: AgentScore) -> Contribution {
    Contribution { source: Source::Peers, score: s.score, weight: SCALE as i64 }
}

/// The contributions arrived scores add under one agent key, in arrival
/// order; at most `budget` of them.
pub open spec fn fanin_entries(ss: Seq<AgentScore>, d: Seq<char>, a: Seq<char>, budget: int) -> Seq<
    Contribution,
>
    decreases ss.len(),
{
    if ss.len() == 0 || budget <= 0 {
        Seq::empty()
    } else if ss[0].id_domain@ == d && ss[0].agent_id@ == a {
        seq![peer_contribution(ss[0])] + fanin_entries(ss.drop_first(), d, a, budget - 1)
    } else {
        fanin_entries(ss.drop_first(), d, a, budget)
    }
}

/// Every score of every arrived response, in arrival order.
pub open spec fn all_scores(rs: Seq<TrustResponse>) -> Seq<AgentScore>
    decreases rs.len(),
{
    if rs.len() == 0 {
        Seq::empty()
    } else {
        rs[0].scores@ + all_scores(rs.drop_first())
    }
}

pub open spec fn tv_has_key(
    tv: Seq<(AgentIdentifier, Seq<Contribution>)>,
    d: Seq<char>,
    a: Seq<char>,
) -> bool {
    exists|i: int| 0 <= i < tv.len() && (#[trigger] tv[i]).0.id_domain@ == d && tv[i].0.agent_id@ == a
}

/// Agents of arrived scores that have no row in the table yet: one entry
/// per distinct key, in first-appearance order.
pub open spec fn new_keys_spec(
    ss: Seq<AgentScore>,
    tv: Seq<(AgentIdentifier, Seq<Contribution>)>,
) -> Seq<AgentIdentifier>
    decreases ss.len(),
{
    if ss.len() == 0 {
        Seq::empty()
    } else {
        let rest = new_keys_spec(ss.drop_last(), tv);
        let s = ss.last();
        if tv_has_key(tv, s.id_domain@, s.agent_id@) || (exists|j: int|
            0 <= j < ss.len() - 1 && (#[trigger] ss[j]).id_domain@ == s.id_domain@
                && ss[j].agent_id@ == s.agent_id@) {
            rest
        } else {
            rest.push(AgentIdentifier { id_domain: s.id_domain, agent_id: s.agent_id })
        }
    }
}

/// The phase-1 rows, each extended by the arrived contributions under its
/// key.
pub open spec fn extended_rows(
    tv: Seq<(AgentIdentifier, Seq<Contribution>)>,
    ss: Seq<AgentScore>,
) -> Seq<(AgentIdentifier, Seq<Contribution>)> {
    Seq::new(
        tv.len(),
        |i: int|
            (
                tv[i].0,
                tv[i].1 + fanin_entries(ss, tv[i].0.id_domain@, tv[i].0.agent_id@,
                    MAX_PEERS as int),
            ),
    )
}

/// One fresh row per agent the responses introduced.
pub open spec fn new_key_rows(
    ss: Seq<AgentScore>,
    tv: Seq<(AgentIdentifier, Seq<Contribution>)>,
) -> Seq<(AgentIdentifier, Seq<Contribution>)> {
    Seq::new(
        new_keys_spec(ss, tv).len(),
        |i: int|
            (
                new_keys_spec(ss, tv)[i],
                fanin_entries(ss, new_keys_spec(ss, tv)[i].id_domain@, new_keys_spec(ss, tv)[
                    i].agent_id@, MAX_PEERS as int),
            ),
    )
}

/// The new rows after only the first `p` arrived scores have been scanned
/// for fresh agent keys; the entries still collect from the whole arrival
/// list.
pub open spec fn partial_new_rows(
    ss: Seq<AgentScore>,
    p: int,
    tv: Seq<(AgentIdentifier, Seq<Contribution>)>,
) -> Seq<(AgentIdentifier, Seq<Contribution>)> {
    Seq::new(
        new_keys_spec(ss.subrange(0, p), tv).len(),
        |i: int|
            (
                new_keys_spec(ss.subrange(0, p), tv)[i],
                fanin_entries(ss, new_keys_spec(ss.subrange(0, p), tv)[i].id_domain@, new_keys_spec(
                    ss.subrange(0, p),
                    tv,
                )[i].agent_id@, MAX_PEERS as int),
            ),
    )
}

proof fn lemma_partial_new_rows_same(
    ss: Seq<AgentScore>,
    p: int,
    tv: Seq<(AgentIdentifier, Seq<Contribution>)>,
)
    requires
        0 <= p < ss.len(),
        new_keys_spec(ss.subrange(0, p + 1), tv) == new_keys_spec(ss.subrange(0, p), tv),
    ensures
        partial_new_rows(ss, p + 1, tv) == partial_new_rows(ss, p, tv),
{
    assert(partial_new_rows(ss, p + 1, tv) =~= partial_new_rows(ss, p, tv));
}

proof fn lemma_partial_new_rows_push(
    ss: Seq<AgentScore>,
    p: int,
    tv: Seq<(AgentIdentifier, Seq<Contribution>)>,
    key: AgentIdentifier,
)
    requires
        0 <= p < ss.len(),
        new_keys_spec(ss.subrange(0, p + 1), tv) == new_keys_spec(ss.subrange(0, p), tv).push(key),
    ensures
        partial_new_rows(ss, p + 1, tv) == partial_new_rows(ss, p, tv).push(
            (key, fanin_entries(ss, key.id_domain@, key.agent_id@, MAX_PEERS as int)),
        ),
{
    let lhs = partial_new_rows(ss, p + 1, tv);
    let rhs = partial_new_rows(ss, p, tv).push(
        (key, fanin_entries(ss, key.id_domain@, key.agent_id@, MAX_PEERS as int)),
    );
    assert(lhs =~= rhs);
}

/// The contribution table after fan-in: every phase-1 row extended by the
/// arrived contributions under its key, then one new row per agent the
/// responses introduced.
pub open spec fn fanin_rows(
    tv: Seq<(AgentIdentifier, Seq<Contribution>)>,
    ss: Seq<AgentScore>,
) -> Seq<(AgentIdentifier, Seq<Contribution>)> {
    extended_rows(tv, ss) + new_key_rows(ss, tv)
}

proof fn lemma_all_scores_push(rs: Seq<TrustResponse>, r: TrustResponse)
    ensures
        all_scores(rs.push(r)) == all_scores(rs) + r.scores@,
    decreases rs.len(),
{
    assert(rs.push(r).len() == rs.len() + 1);
    if rs.len() == 0 {
        assert(rs.push(r).drop_first() =~= Seq::<TrustResponse>::empty());
        assert(rs.push(r)[0] == r);
        assert(all_scores(Seq::<TrustResponse>::empty()) == Seq::<AgentScore>::empty());
        assert(r.scores@ + Seq::<AgentScore>::empty() =~= r.scores@);
        assert(Seq::<AgentScore>::empty() + r.scores@ =~= r.scores@);
    } else {
        assert(rs.push(r).drop_first() =~= rs.drop_first().push(r));
        assert(rs.push(r)[0] == rs[0]);
        lemma_all_scores_push(rs.drop_first(), r);
        assert(rs[0].scores@ + (all_scores(rs.drop_first()) + r.scores@) =~= (rs[0].scores@
            + all_scores(rs.drop_first())) + r.scores@);
    }
}

proof fn lemma_all_scores_wf(rs: Seq<TrustResponse>)
    requires
        forall|i: int| 0 <= i < rs.len() ==> (#[trigger] rs[i]).wf(),
    ensures
        forall|k: int| 0 <= k < all_scores(rs).len() ==> (#[trigger] all_scores(rs)[k]).wf(),
    decreases rs.len(),
{
    if rs.len() > 0 {
        assert(forall|i: int|
            0 <= i < rs.drop_first().len() ==> #[trigger] rs.drop_first()[i] == rs[i + 1]);
        lemma_all_scores_wf(rs.drop_first());
        let w = all_scores(rs);
        let head = rs[0].scores@;
        let tail = all_scores(rs.drop_first());
        assert(rs[0].wf());
        assert forall|k: int| 0 <= k < w.len() implies (#[trigger] w[k]).wf() by {
            if k < head.len() {
                assert(w[k] == head[k]);
            } else {
                assert(w[k] == tail[k - head.len()]);
            }
        }
    }
}

fn collect_scores(responses: &Vec<TrustResponse>) -> (r: Vec<AgentScore>)
    ensures
        r@ == all_scores(responses@),
{
    let ghost rs = responses@;
    let mut flat: Vec<AgentScore> = Vec::new();
    let mut i: usize = 0;
    proof {
        assert(rs.subrange(0, 0) =~= Seq::<TrustResponse>::empty());
    }
    while i < responses.len()
        invariant
            0 <= i <= rs.len(),
            responses@ == rs,
            flat@ == all_scores(rs.subrange(0, i as int)),
        decreases rs.len() - i,
    {
        let scores = &responses[i].scores;
        let mut j: usize = 0;
        while j < scores.len()
            invariant
                0 <= i < rs.len(),
                0 <= j <= scores@.len(),
                responses@ == rs,
                scores@ == rs[i as int].scores@,
                flat@ == all_scores(rs.subrange(0, i as int)) + scores@.subrange(0, j as int),
            decreases scores@.len() - j,
        {
            flat.push(scores[j].clone());
            proof {
                assert(all_scores(rs.subrange(0, i as int)) + scores@.subrange(0, j + 1)
                    =~= (all_scores(rs.subrange(0, i as int)) + scores@.subrange(0, j as int)).push(
                    scores@[j as int],
                ));
            }
            j += 1;
        }
        proof {
            assert(rs.subrange(0, i + 1) =~= rs.subrange(0, i as int).push(rs[i as int]));
            lemma_all_scores_push(rs.subrange(0, i as int), rs[i as int]);
            assert(scores@.subrange(0, scores@.len() as int) =~= scores@);
        }
        i += 1;
    }
    proof {
        assert(rs.subrange(0, rs.len() as int) =~= rs);
        if i == 0 {
            assert(flat@ =~= all_scores(rs));
        }
    }
    flat
}

fn fanin_entries_exec(flat: &Vec<AgentScore>, d: &String, a: &String) -> (r: Vec<Contribution>)
    requires
        forall|k: int| 0 <= k < flat@.len() ==> (#[trigger] flat@[k]).wf(),
    ensures
        r@ == fanin_entries(flat@, d@, a@, MAX_PEERS as int),
        r@.len() <= MAX_PEERS,
        forall|k: int| 0 <= k < r@.len() ==> (#[trigger] r@[k]).wf(),
{
    let ghost ss = flat@;
    let mut out: Vec<Contribution> = Vec::new();
    let mut budget: usize = MAX_PEERS;
    let mut i: usize = 0;
    proof {
        assert(ss.subrange(0, ss.len() as int) =~= ss);
    }
    while i < flat.len() && budget > 0
        invariant
            0 <= i <= ss.len(),
            flat@ == ss,
            forall|k: int| 0 <= k < ss.len() ==> (#[trigger] ss[k]).wf(),
            0 <= budget <= MAX_PEERS,
            out@.len() == MAX_PEERS - budget,
            forall|k: int| 0 <= k < out@.len() ==> (#[trigger] out@[k]).wf(),
            fanin_entries(ss, d@, a@, MAX_PEERS as int) == out@ + fanin_entries(
                ss.subrange(i as int, ss.len() as int),
                d@,
                a@,
                budget as int,
            ),
        decreases ss.len() - i,
    {
        let ghost suffix = ss.subrange(i as int, ss.len() as int);
        proof {
            assert(suffix[0] == ss[i as int]);
            assert(suffix.drop_first() =~= ss.subrange(i + 1, ss.len() as int));
        }
        let s = &flat[i];
        if s.id_domain == *d && s.agent_id == *a {
            let c = Contribution { source: Source::Peers, score: s.score, weight: SCALE as i64 };
            proof {
                assert(c == peer_contribution(ss[i as int]));
                assert(out@ + (seq![peer_contribution(ss[i as int])] + fanin_entries(
                    ss.subrange(i + 1, ss.len() as int),
                    d@,
                    a@,
                    budget - 1,
                )) =~= out@.push(c) + fanin_entries(
                    ss.subrange(i + 1, ss.len() as int),
                    d@,
                    a@,
                    budget - 1,
                ));
            }
            out.push(c);
            budget = budget - 1;
        }
        i += 1;
    }
    proof {
        let suffix = ss.subrange(i as int, ss.len() as int);
        if i == ss.len() {
            assert(suffix =~= Seq::<AgentScore>::empty());
            assert(fanin_entries(suffix, d@, a@, budget as int) =~= Seq::<Contribution>::empty());
        } else {
            assert(budget == 0);
            assert(fanin_entries(suffix, d@, a@, 0) =~= Seq::<Contribution>::empty());
        }
        assert(out@ + Seq::<Contribution>::empty() =~= out@);
    }
    out
}

/// Extends every phase-1 row with the arrived contributions under its key
/// and adds one row per agent the responses introduced: phase 4's merge
/// input.
fn finish_table(table: &Vec<AgentContributions>, flat: &Vec<AgentScore>) -> (r: Vec<
    AgentContributions,
>)
    requires
        table_wf(table@, 1 + MAX_PEERS),
        forall|k: int| 0 <= k < flat@.len() ==> (#[trigger] flat@[k]).wf(),
    ensures
        table_view(r@) == fanin_rows(table_view(table@), flat@),
        table_wf(r@, MAX_CONTRIBS as int),
{
    let ghost tv = table_view(table@);
    let ghost ss = flat@;
    let mut out: Vec<AgentContributions> = Vec::new();
    let ghost first_part = extended_rows(tv, ss);
    let mut i: usize = 0;
    while i < table.len()
        invariant
            0 <= i <= table@.len(),
            tv == table_view(table@),
            ss == flat@,
            table_wf(table@, 1 + MAX_PEERS),
            forall|k: int| 0 <= k < ss.len() ==> (#[trigger] ss[k]).wf(),
            first_part == extended_rows(tv, ss),
            out@.len() == i,
            forall|k: int| 0 <= k < i ==> table_view(out@)[k] == first_part[k],
            forall|k: int| 0 <= k < i ==> (#[trigger] out@[k]).agent == table@[k].agent,
            table_wf(out@, MAX_CONTRIBS as int),
        decreases table@.len() - i,
    {
        let row = &table[i];
        let additions = fanin_entries_exec(flat, &row.agent.id_domain, &row.agent.agent_id);
        let mut entries: Vec<Contribution> = Vec::new();
        let mut k: usize = 0;
        while k < row.entries.len()
            invariant
                0 <= k <= row.entries@.len(),
                entries@ == row.entries@.subrange(0, k as int),
            decreases row.entries@.len() - k,
        {
            entries.push(row.entries[k].clone());
            proof {
                assert(row.entries@.subrange(0, k + 1) =~= row.entries@.subrange(0, k as int).push(
                    row.entries@[k as int],
                ));
            }
            k += 1;
        }
        proof {
            assert(row.entries@.subrange(0, row.entries@.len() as int) =~= row.entries@);
        }
        let mut j: usize = 0;
        while j < additions.len()
            invariant
                0 <= j <= additions@.len(),
                entries@ == row.entries@ + additions@.subrange(0, j as int),
            decreases additions@.len() - j,
        {
            entries.push(additions[j].clone());
            proof {
                assert(row.entries@ + additions@.subrange(0, j + 1) =~= (row.entries@
                    + additions@.subrange(0, j as int)).push(additions@[j as int]));
            }
            j += 1;
        }
        proof {
            assert(additions@.subrange(0, additions@.len() as int) =~= additions@);
            if i == 0 {
                assert(row.entries@ + Seq::<Contribution>::empty() =~= row.entries@);
            }
        }
        let new_row = AgentContributions { agent: row.agent.clone(), entries };
        let ghost old_out = out@;
        out.push(new_row);
        proof {
            assert(table_view(out@) =~~= table_view(old_out).push((new_row.agent,
                new_row.entries@)));
            assert(tv[i as int] == (table@[i as int].agent, table@[i as int].entries@));
            assert(table_view(out@)[i as int] == first_part[i as int]);
            assert(forall|k2: int|
                0 <= k2 < i ==> table_view(out@)[k2] == #[trigger] table_view(old_out)[k2]);
        }
        i += 1;
    }
    let ghost base_len = table@.len() as int;
    proof {
        assert(table_view(out@) =~= first_part);
        assert(table_view(out@).subrange(0, base_len) =~= first_part);
        assert(ss.subrange(0, 0) =~= Seq::<AgentScore>::empty());
        assert(new_keys_spec(Seq::<AgentScore>::empty(), tv) == Seq::<AgentIdentifier>::empty());
        assert(table_view(out@).subrange(base_len, out@.len() as int) =~= partial_new_rows(
            ss,
            0,
            tv,
        ));
    }
    // one new row per agent the responses introduced
    let mut p: usize = 0;
    while p < flat.len()
        invariant
            0 <= p <= ss.len(),
            ss == flat@,
            tv == table_view(table@),
            table_wf(table@, 1 + MAX_PEERS),
            forall|k: int| 0 <= k < ss.len() ==> (#[trigger] ss[k]).wf(),
            base_len == tv.len(),
            out@.len() >= base_len,
            first_part == extended_rows(tv, ss),
            forall|k: int| 0 <= k < base_len ==> table_view(out@)[k] == first_part[k],
            table_view(out@).subrange(0, base_len) =~= first_part,
            table_view(out@).subrange(base_len, out@.len() as int) == partial_new_rows(
                ss,
                p as int,
                tv,
            ),
            forall|k: int|
                base_len <= k < out@.len() ==> exists|j: int|
                    0 <= j < p && (#[trigger] ss[j]).id_domain@ == (#[trigger] out@[
                    k]).agent.id_domain@ && ss[j].agent_id@ == out@[k].agent.agent_id@,
            forall|k: int|
                0 <= k < out@.len() ==> (#[trigger] out@[k]).agent.id_domain@
                    == table_view(out@)[k].0.id_domain@ && out@[k].agent.agent_id@
                    == table_view(out@)[k].0.agent_id@,
            forall|j: int|
                0 <= j < p && !tv_has_key(tv, (#[trigger] ss[j]).id_domain@, ss[j].agent_id@)
                    ==> table_has_key(out@, ss[j].id_domain@, ss[j].agent_id@),
            table_wf(out@, MAX_CONTRIBS as int),
        decreases ss.len() - p,
    {
        let s = &flat[p];
        let ghost prefix = ss.subrange(0, p as int);
        let ghost prefix1 = ss.subrange(0, p + 1);
        proof {
            assert(prefix1.drop_last() =~= prefix);
            assert(prefix1.last() == ss[p as int]);
            assert(forall|j: int| 0 <= j < p ==> #[trigger] prefix1[j] == ss[j]);
        }
        let dup = table_find_key(&out, &s.id_domain, &s.agent_id);
        match dup {
            Some(idx) => {
                proof {
                    let k = idx as int;
                    assert(table_has_key(out@, ss[p as int].id_domain@, ss[p as int].agent_id@));
                    assert(out@[k].agent.id_domain@ == ss[p as int].id_domain@
                        && out@[k].agent.agent_id@ == ss[p as int].agent_id@);
                    if k < base_len {
                        assert(table_view(out@)[k] == first_part[k]);
                        assert(first_part == extended_rows(tv, ss));
                        assert(extended_rows(tv, ss)[k].0 == tv[k].0);
                        assert(out@[k].agent.id_domain@ == table_view(out@)[k].0.id_domain@
                            && out@[k].agent.agent_id@ == table_view(out@)[k].0.agent_id@);
                        assert(tv_has_key(tv, ss[p as int].id_domain@, ss[p as int].agent_id@));
                    } else {
                        let j = choose|j: int|
                            0 <= j < p && (#[trigger] ss[j]).id_domain@ == out@[
                                k].agent.id_domain@ && ss[j].agent_id@ == out@[k].agent.agent_id@;
                        assert(prefix1[j] == ss[j]);
                        assert(exists|j2: int|
                            0 <= j2 < prefix1.len() - 1 && (#[trigger] prefix1[j2]).id_domain@
                                == prefix1.last().id_domain@ && prefix1[j2].agent_id@
                                == prefix1.last().agent_id@);
                    }
                    assert(new_keys_spec(prefix1, tv) == new_keys_spec(prefix, tv));
                    assert(partial_new_rows(ss, p + 1, tv) == partial_new_rows(ss, p as int, tv))
                        by {
                        lemma_partial_new_rows_same(ss, p as int, tv);
                    }
                }
            },
            None => {
                proof {
                    assert(!tv_has_key(tv, ss[p as int].id_domain@, ss[p as int].agent_id@)) by {
                        if tv_has_key(tv, ss[p as int].id_domain@, ss[p as int].agent_id@) {
                            let k = choose|k: int|
                                0 <= k < tv.len() && (#[trigger] tv[k]).0.id_domain@ == ss[
                                    p as int
                                ].id_domain@ && tv[k].0.agent_id@ == ss[p as int].agent_id@;
                            assert(table_view(out@)[k] == first_part[k]);
                            assert(first_part == extended_rows(tv, ss));
                            assert(extended_rows(tv, ss)[k].0 == tv[k].0);
                            assert(out@[k].agent.id_domain@ == table_view(out@)[k].0.id_domain@
                                && out@[k].agent.agent_id@ == table_view(out@)[k].0.agent_id@);
                            assert(table_has_key(out@, ss[p as int].id_domain@,
                                ss[p as int].agent_id@));
                        }
                    }
                    assert(!(exists|j: int|
                        0 <= j < p && (#[trigger] ss[j]).id_domain@ == ss[p as int].id_domain@
                            && ss[j].agent_id@ == ss[p as int].agent_id@)) by {
                        if exists|j: int|
                            0 <= j < p && (#[trigger] ss[j]).id_domain@ == ss[p as int].id_domain@
                                && ss[j].agent_id@ == ss[p as int].agent_id@ {
                            let j = choose|j: int|
                                0 <= j < p && (#[trigger] ss[j]).id_domain@ == ss[
                                    p as int
                                ].id_domain@ && ss[j].agent_id@ == ss[p as int].agent_id@;
                            assert(table_has_key(out@, ss[j].id_domain@, ss[j].agent_id@));
                        }
                    }
                    assert forall|j2: int|
                        0 <= j2 < prefix1.len() - 1 implies !((#[trigger] prefix1[j2]).id_domain@
                        == prefix1.last().id_domain@ && prefix1[j2].agent_id@
                        == prefix1.last().agent_id@) by {
                        assert(prefix1[j2] == ss[j2]);
                    }
                }
                let entries = fanin_entries_exec(flat, &s.id_domain, &s.agent_id);
                proof {
                    lemma_fanin_nonempty(ss, p as int);
                    assert(entries@.len() >= 1);
                }
                let key = AgentIdentifier {
                    id_domain: s.id_domain.clone(),
                    agent_id: s.agent_id.clone(),
                };
                let new_row = AgentContributions { agent: key, entries };
                let ghost old_out = out@;
                out.push(new_row);
                proof {
                    assert(table_view(out@) =~~= table_view(old_out).push((new_row.agent,
                        new_row.entries@)));
                    assert(new_row.agent == (AgentIdentifier {
                        id_domain: ss[p as int].id_domain,
                        agent_id: ss[p as int].agent_id,
                    }));
                    assert(forall|k2: int|
                        0 <= k2 < old_out.len() ==> table_view(out@)[k2] == #[trigger] table_view(
                            old_out,
                        )[k2]);
                    assert(table_view(out@).subrange(0, base_len) =~= first_part);
                    assert(new_keys_spec(prefix1, tv) == new_keys_spec(prefix, tv).push(
                        new_row.agent,
                    ));
                    lemma_partial_new_rows_push(ss, p as int, tv, new_row.agent);
                    assert(table_view(out@).subrange(base_len, out@.len() as int) =~= table_view(
                        old_out,
                    ).subrange(base_len, old_out.len() as int).push((new_row.agent,
                        new_row.entries@)));
                    assert(table_view(out@).subrange(base_len, out@.len() as int)
                        == partial_new_rows(ss, p + 1, tv));
                    assert(out@[old_out.len() as int].agent == new_row.agent);
                    assert(table_has_key(out@, ss[p as int].id_domain@, ss[p as int].agent_id@));
                    assert forall|j: int|
                        0 <= j < p + 1 && !tv_has_key(tv, (#[trigger] ss[j]).id_domain@,
                            ss[j].agent_id@) implies table_has_key(out@, ss[j].id_domain@,
                        ss[j].agent_id@) by {
                        if j < p {
                            assert(table_has_key(old_out, ss[j].id_domain@, ss[j].agent_id@));
                            let k = choose|k: int|
                                0 <= k < old_out.len() && (#[trigger] old_out[k]).agent.id_domain@
                                    == ss[j].id_domain@ && old_out[k].agent.agent_id@ == ss[
                                    j].agent_id@;
                            assert(out@[k] == old_out[k]);
                        }
                    }
                }
            },
        }
        p += 1;
    }
    proof {
        assert(ss.subrange(0, ss.len() as int) =~= ss);
        assert(partial_new_rows(ss, ss.len() as int, tv) =~= new_key_rows(ss, tv));
        assert(table_view(out@) =~= table_view(out@).subrange(0, base_len) + table_view(
            out@,
        ).subrange(base_len, out@.len() as int));
        assert(table_view(out@) =~~= fanin_rows(tv, ss));
    }
    out
}

/// One fanned-out sub-query: the outbound request identifier the actor
/// assigned, the peer it goes to, and the depth-decremented query with the
/// evaluation clock pinned.
pub struct SubQuery {
    pub request_id: u64,
    pub peer_id: String,
    pub query: TrustQuery,
}

/// How a query command comes back: an immediate answer, a fan-out awaiting
/// peer responses, or a refusal.
pub enum QueryStep {
    Reply(TrustResponse),
    Suspended(Vec<SubQuery>),
    Failed(TrustError),
}

/// One in-flight fan-out: the outbound identifiers it is indexed under, the
/// peers still awaited, the responses so far, the phase-1 contribution
/// table carried to the merge, and the originator's reply token.
pub struct PendingRequest {
    pub request_ids: Vec<u64>,
    pub waiting_for: Vec<String>,
    pub responses: Vec<TrustResponse>,
    pub table: Vec<AgentContributions>,
    pub reply_token: u64,
}

pub open spec fn pending_wf(p: PendingRequest) -> bool {
    &&& p.waiting_for@.len() + p.responses@.len() <= MAX_PEERS
    &&& table_wf(p.table@, 1 + MAX_PEERS)
    &&& forall|i: int| 0 <= i < p.responses@.len() ==> (#[trigger] p.responses@[i]).wf()
}

/// The resolved evaluation clock of a query: its pinned time, else `now`.
pub open spec fn resolve_time(q: TrustQuery, now: int) -> int {
    match q.point_in_time {
        Some(x) => x as int,
        None => now,
    }
}

/// The resolved forget rate of a query: its pinned rate, else zero.
pub open spec fn resolve_rate(q: TrustQuery) -> int {
    match q.forget_rate {
        Some(x) => x as int,
        None => 0,
    }
}

/// A response carries exactly one volume-weighted score per table row.
pub open spec fn response_of_table(
    r: TrustResponse,
    tv: Seq<(AgentIdentifier, Seq<Contribution>)>,
    now: int,
) -> bool {
    &&& r.timestamp == now
    &&& r.scores@.len() == tv.len()
    &&& forall|i: int|
        0 <= i < tv.len() ==> (#[trigger] r.scores@[i]).id_domain@ == tv[i].0.id_domain@
            && r.scores@[i].agent_id@ == tv[i].0.agent_id@ && r.scores@[i].score == merged_score(
            tv[i].1,
        )
}

proof fn lemma_has_view_handle(hs: Seq<String>, v: Seq<char>)
    ensures
        has_view(views_of(hs), v) == has_handle(hs, v),
{
    if has_view(views_of(hs), v) {
        let i = choose|i: int| 0 <= i < views_of(hs).len() && views_of(hs)[i] == v;
        assert(hs[i]@ == v);
        assert(has_handle(hs, v));
    }
    if has_handle(hs, v) {
        let i = choose|i: int| 0 <= i < hs.len() && (#[trigger] hs[i])@ == v;
        assert(views_of(hs)[i] == v);
        assert(has_view(views_of(hs), v));
    }
}

/// The connected, registered peers a fan-out consults, one sub-query each:
/// every registered peer's canonical identifier that is currently connected,
/// without repetition, in registry order.
fn fanout_targets(registry: &Vec<Peer>, connected: &Vec<String>) -> (r: Vec<String>)
    ensures
        views_of(r@) == fanout_targets_spec(registry@, connected@),
        r@.len() <= registry@.len(),
{
    let ghost reg = registry@;
    let mut targets: Vec<String> = Vec::new();
    let mut i: usize = 0;
    proof {
        assert(reg.subrange(0, 0) =~= Seq::<Peer>::empty());
        assert(views_of(targets@) =~= fanout_targets_spec(
            reg.subrange(0, 0),
            connected@,
        ));
    }
    while i < registry.len()
        invariant
            0 <= i <= reg.len(),
            registry@ == reg,
            targets@.len() <= i,
            views_of(targets@) == fanout_targets_spec(reg.subrange(0, i as int), connected@),
        decreases reg.len() - i,
    {
        let ghost prefix = reg.subrange(0, i as int);
        let ghost prefix1 = reg.subrange(0, i + 1);
        proof {
            assert(prefix1.drop_last() =~= prefix);
            assert(prefix1.last() == reg[i as int]);
        }
        let peer = &registry[i];
        let c: String = match parse_peer_multiaddr(&peer.peer_id) {
            Some(p) => p,
            None => peer.peer_id.clone(),
        };
        assert(c@ == canonical_id(reg[i as int].peer_id@));
        let is_connected = contains_handle(connected, &c);
        let already = contains_handle(&targets, &c);
        proof {
            lemma_has_view_handle(targets@, c@);
        }
        if is_connected && !already {
            let ghost old_targets = targets@;
            targets.push(c);
            proof {
                assert(views_of(targets@) =~~= views_of(old_targets).push(c@));
            }
        }
        i += 1;
    }
    proof {
        assert(reg.subrange(0, reg.len() as int) =~= reg);
    }
    targets
}

fn clone_agents(agents: &Vec<AgentIdentifier>) -> (r: Vec<AgentIdentifier>)
    ensures
        r@ == agents@,
{
    let mut out: Vec<AgentIdentifier> = Vec::new();
    let mut i: usize = 0;
    while i < agents.len()
        invariant
            0 <= i <= agents@.len(),
            out@ == agents@.subrange(0, i as int),
        decreases agents@.len() - i,
    {
        out.push(agents[i].clone());
        proof {
            assert(agents@.subrange(0, i + 1) =~= agents@.subrange(0, i as int).push(
                agents@[i as int],
            ));
        }
        i += 1;
    }
    proof {
        assert(agents@.subrange(0, agents@.len() as int) =~= agents@);
    }
    out
}

/// The network actor's state: the store (whose peer table doubles as the
/// in-memory registry), the pending fan-outs, and the next outbound request
/// identifier.
pub struct TrustNode {
    pub store: TrustStore,
    pub pending: Vec<PendingRequest>,
    pub next_request_id: u64,
}

impl TrustNode {
    pub open spec fn wf(&self) -> bool {
        &&& self.store.wf()
        &&& self.pending@.len() <= MAX_PENDING
        &&& forall|i: int| 0 <= i < self.pending@.len() ==> pending_wf(#[trigger] self.pending@[i])
    }

    /// A fresh actor over the given store; the registry is primed from the
    /// store's peer table, which it mirrors thereafter.
    pub fn new(store: TrustStore) -> (r: TrustNode)
        requires
            store.wf(),
        ensures
            r.wf(),
            r.store.experiences@ == store.experiences@,
            r.store.peers@ == store.peers@,
            r.store.cached@ == store.cached@,
            r.pending@.len() == 0,
            r.next_request_id == 0,
    {
        TrustNode { store, pending: Vec::new(), next_request_id: 0 }
    }

    /// Starts a trust query: computes the local and cached contributions,
    /// and either answers at once (depth zero, or no connected registered
    /// peer) or fans depth-decremented sub-queries out to every connected
    /// registered peer and suspends. A depth-zero query never issues a
    /// sub-query, and its answer is a function of the stored experiences,
    /// the cached opinions and the registry alone.
    pub fn begin_query(
        &mut self,
        query: &TrustQuery,
        connected: &Vec<String>,
        now: i64,
        reply_token: u64,
    ) -> (r: QueryStep)
        requires
            old(self).wf(),
            0 <= now <= TS_CAP,
        ensures
            final(self).wf(),
            final(self).store.experiences@ == old(self).store.experiences@,
            final(self).store.peers@ == old(self).store.peers@,
            final(self).store.cached@ == old(self).store.cached@,
            !query.wf() ==> r == QueryStep::Failed(TrustError::Input) && final(self).pending@
                == old(self).pending@,
            query.max_depth == 0 ==> !(r is Suspended) && final(self).pending@ == old(self).pending@,
            query.wf() ==> ({
                let t = resolve_time(*query, now as int);
                let phi = resolve_rate(*query);
                let tv = phase1_table_spec(
                    old(self).store.experiences@,
                    old(self).store.cached@,
                    old(self).store.peers@,
                    query.agents@,
                    t,
                    phi,
                    now as int,
                );
                let targets = if query.max_depth == 0 {
                    Seq::<Seq<char>>::empty()
                } else {
                    fanout_targets_spec(old(self).store.peers@, connected@)
                };
                &&& (targets.len() == 0 ==> final(self).pending@ == old(self).pending@ && (
                r matches QueryStep::Reply(resp) && response_of_table(resp, tv, now as int)))
                &&& (targets.len() > 0 && (old(self).pending@.len() >= MAX_PENDING || old(self).next_request_id + targets.len() > u64::MAX) ==> r == QueryStep::Failed(
                    TrustError::Busy,
                ) && final(self).pending@ == old(self).pending@)
                &&& (targets.len() > 0 && old(self).pending@.len() < MAX_PENDING && old(self).next_request_id + targets.len() <= u64::MAX ==> (r matches QueryStep::Suspended(
                    subs,
                ) && subs@.len() == targets.len() && (forall|i: int|
                    0 <= i < subs@.len() ==> (#[trigger] subs@[i]).peer_id@ == targets[i]
                        && subs@[i].request_id == old(self).next_request_id + i
                        && subs@[i].query.agents@ == query.agents@ && subs@[i].query.max_depth
                        == query.max_depth - 1 && subs@[i].query.point_in_time == Some(t as i64)
                        && subs@[i].query.forget_rate == Some(phi as i64)) && final(self).pending@.len() == old(self).pending@.len() + 1 && (forall|i: int|
                    0 <= i < old(self).pending@.len() ==> #[trigger] final(self).pending@[i] == old(self).pending@[i]) && ({
                    let rec = final(self).pending@.last();
                    &&& table_view(rec.table@) == tv
                    &&& views_of(rec.waiting_for@) == targets
                    &&& rec.responses@.len() == 0
                    &&& rec.reply_token == reply_token
                    &&& rec.request_ids@.len() == targets.len()
                    &&& forall|i: int|
                        0 <= i < rec.request_ids@.len() ==> #[trigger] rec.request_ids@[i] == old(self).next_request_id + i
                })))
            }),
    {
        if !query.is_valid() {
            return QueryStep::Failed(TrustError::Input);
        }
        let t: i64 = match query.point_in_time {
            Some(x) => x,
            None => now,
        };
        let phi: i64 = match query.forget_rate {
            Some(x) => x,
            None => 0,
        };
        let table = build_table(&self.store, &query.agents, t, phi, now);
        let targets: Vec<String> = if query.max_depth > 0 {
            fanout_targets(&self.store.peers, connected)
        } else {
            Vec::new()
        };
        proof {
            if query.max_depth == 0 {
                assert(views_of(targets@) =~= Seq::<Seq<char>>::empty());
            }
            assert(views_of(targets@).len() == targets@.len());
        }
        if targets.len() == 0 {
            let resp = merge_table(&table, now);
            proof {
                let tv = table_view(table@);
                assert forall|i: int| 0 <= i < tv.len() implies (
                #[trigger] resp.scores@[i]).id_domain@ == tv[i].0.id_domain@ && resp.scores@[
                    i].agent_id@ == tv[i].0.agent_id@ && resp.scores@[i].score == merged_score(
                    tv[i].1,
                ) by {
                    assert(tv[i] == (table@[i].agent, table@[i].entries@));
                }
            }
            return QueryStep::Reply(resp);
        }
        if self.pending.len() >= MAX_PENDING {
            return QueryStep::Failed(TrustError::Busy);
        }
        if u64::MAX - self.next_request_id < targets.len() as u64 {
            return QueryStep::Failed(TrustError::Busy);
        }
        let ghost first_id = self.next_request_id;
        let mut subs: Vec<SubQuery> = Vec::new();
        let mut ids: Vec<u64> = Vec::new();
        let mut waiting: Vec<String> = Vec::new();
        let mut i: usize = 0;
        while i < targets.len()
            invariant
                0 <= i <= targets@.len(),
                self.next_request_id == first_id + i,
                first_id + targets@.len() <= u64::MAX,
                self.store == old(self).store,
                self.pending@ == old(self).pending@,
                old(self).wf(),
                self.pending@.len() < MAX_PENDING,
                targets@.len() <= self.store.peers@.len(),
                subs@.len() == i,
                ids@.len() == i,
                waiting@.len() == i,
                query.wf(),
                Some(t) == (if query.point_in_time is Some {
                    query.point_in_time
                } else {
                    Some(now)
                }),
                Some(phi) == (if query.forget_rate is Some {
                    query.forget_rate
                } else {
                    Some(0i64)
                }),
                forall|k: int| 0 <= k < i ==> (#[trigger] waiting@[k])@ == targets@[k]@,
                forall|k: int|
                    0 <= k < i ==> (#[trigger] subs@[k]).peer_id@ == targets@[k]@ && subs@[
                        k].request_id == first_id + k && subs@[k].query.agents@ == query.agents@
                        && subs@[k].query.max_depth == query.max_depth - 1 && subs@[
                        k].query.point_in_time == Some(t) && subs@[k].query.forget_rate == Some(
                        phi,
                    ),
                forall|k: int| 0 <= k < i ==> #[trigger] ids@[k] == first_id + k,
                query.max_depth > 0,
            decreases targets@.len() - i,
        {
            let rid = self.next_request_id;
            self.next_request_id = self.next_request_id + 1;
            let sub_query = TrustQuery {
                agents: clone_agents(&query.agents),
                max_depth: query.max_depth - 1,
                point_in_time: Some(t),
                forget_rate: Some(phi),
            };
            subs.push(SubQuery { request_id: rid, peer_id: targets[i].clone(), query: sub_query });
            ids.push(rid);
            waiting.push(targets[i].clone());
            i += 1;
        }
        let record = PendingRequest {
            request_ids: ids,
            waiting_for: waiting,
            responses: Vec::new(),
            table,
            reply_token,
        };
        proof {
            assert(views_of(record.waiting_for@) =~~= views_of(targets@));
            assert(record.waiting_for@.len() + record.responses@.len() <= MAX_PEERS) by {
                assert(targets@.len() <= self.store.peers@.len());
            }
        }
        self.pending.push(record);
        proof {
            assert(final(self).pending@.last() == record);
            assert(forall|k: int|
                0 <= k < old(self).pending@.len() ==> #[trigger] final(self).pending@[k] == old(self).pending@[k]);
        }
        QueryStep::Suspended(subs)
    }
}

/// A score's own key always matches itself, so the fan-in entries under a
/// key that appears among the arrived scores are never empty.
proof fn lemma_fanin_nonempty(ss: Seq<AgentScore>, p: int)
    requires
        0 <= p < ss.len(),
    ensures
        fanin_entries(ss, ss[p].id_domain@, ss[p].agent_id@, MAX_PEERS as int).len() >= 1,
{
    lemma_fanin_nonempty_rec(ss, ss[p].id_domain@, ss[p].agent_id@, p, MAX_PEERS as int);
}

proof fn lemma_fanin_nonempty_rec(ss: Seq<AgentScore>, d: Seq<char>, a: Seq<char>, p: int, b: int)
    requires
        0 <= p < ss.len(),
        ss[p].id_domain@ == d,
        ss[p].agent_id@ == a,
        b >= 1,
    ensures
        fanin_entries(ss, d, a, b).len() >= 1,
    decreases p,
{
    if ss[0].id_domain@ == d && ss[0].agent_id@ == a {
    } else {
        assert(ss.drop_first()[p - 1] == ss[p]);
        lemma_fanin_nonempty_rec(ss.drop_first(), d, a, p - 1, b);
    }
}


/// The cache holds this score as the named peer's opinion, stamped `now`.
pub open spec fn cached_one(
    cs: Seq<CachedTrustScore>,
    s: AgentScore,
    fp: Seq<char>,
    now: int,
) -> bool {
    exists|k: int|
        0 <= k < cs.len() && ((#[trigger] cs[k]).id_domain@ == s.id_domain@ && cs[k].agent_id@
            == s.agent_id@ && cs[k].score == s.score && cs[k].from_peer@ == fp && cs[k].cached_at
            == now)
}

/// Every score of the response sits in the cache as the peer's opinion.
pub open spec fn response_cached(
    cs: Seq<CachedTrustScore>,
    scores: Seq<AgentScore>,
    fp: Seq<char>,
    now: int,
) -> bool {
    forall|i: int| 0 <= i < scores.len() ==> cached_one(cs, #[trigger] scores[i], fp, now)
}

proof fn lemma_cached_one_after_upsert(
    before: Seq<CachedTrustScore>,
    after: Seq<CachedTrustScore>,
    s: AgentScore,
    row: CachedTrustScore,
    fp: Seq<char>,
    now: int,
)
    requires
        cached_one(before, s, fp, now),
        !(s.id_domain@ == row.id_domain@ && s.agent_id@ == row.agent_id@),
        after == before.push(row) || exists|idx: int|
            0 <= idx < before.len() && (#[trigger] before[idx]).id_domain@ == row.id_domain@
                && before[idx].agent_id@ == row.agent_id@ && before[idx].from_peer@
                == row.from_peer@ && after == before.update(idx, row),
    ensures
        cached_one(after, s, fp, now),
{
    let k0 = choose|k0: int|
        0 <= k0 < before.len() && ((#[trigger] before[k0]).id_domain@ == s.id_domain@ && before[
            k0].agent_id@ == s.agent_id@ && before[k0].score == s.score && before[k0].from_peer@
            == fp && before[k0].cached_at == now);
    if after == before.push(row) {
        assert(after[k0] == before[k0]);
    } else {
        let idx = choose|idx: int|
            0 <= idx < before.len() && (#[trigger] before[idx]).id_domain@ == row.id_domain@
                && before[idx].agent_id@ == row.agent_id@ && before[idx].from_peer@
                == row.from_peer@ && after == before.update(idx, row);
        assert(k0 != idx);
        assert(after[k0] == before[k0]);
    }
}

/// Whether a list of outbound identifiers holds the given one.
pub open spec fn has_id(ids: Seq<u64>, id: u64) -> bool {
    exists|i: int| 0 <= i < ids.len() && ids[i] == id
}

/// `pi` is the first pending record indexed under the given outbound
/// identifier.
pub open spec fn is_first_match(ps: Seq<PendingRequest>, id: u64, pi: int) -> bool {
    &&& 0 <= pi < ps.len()
    &&& has_id(ps[pi].request_ids@, id)
    &&& forall|k: int| 0 <= k < pi ==> !has_id((#[trigger] ps[k]).request_ids@, id)
}

/// The handle list with its first occurrence of `h` removed.
pub open spec fn remove_first_handle(hs: Seq<String>, h: Seq<char>) -> Seq<String>
    decreases hs.len(),
{
    if hs.len() == 0 {
        Seq::empty()
    } else if hs[0]@ == h {
        hs.drop_first()
    } else {
        seq![hs[0]] + remove_first_handle(hs.drop_first(), h)
    }
}

proof fn lemma_remove_first_handle(hs: Seq<String>, h: Seq<char>, j: int)
    requires
        0 <= j < hs.len(),
        hs[j]@ == h,
        forall|k: int| 0 <= k < j ==> (#[trigger] hs[k])@ != h,
    ensures
        remove_first_handle(hs, h) == hs.remove(j),
    decreases j,
{
    if j == 0 {
        assert(remove_first_handle(hs, h) == hs.drop_first());
        assert(hs.remove(0) =~= hs.drop_first());
    } else {
        assert(forall|k: int|
            0 <= k < hs.drop_first().len() ==> #[trigger] hs.drop_first()[k] == hs[k + 1]);
        lemma_remove_first_handle(hs.drop_first(), h, j - 1);
        assert(seq![hs[0]] + hs.drop_first().remove(j - 1) =~= hs.remove(j));
    }
}

fn find_handle_index(hs: &Vec<String>, h: &String) -> (r: Option<usize>)
    ensures
        r matches Some(j) ==> 0 <= j < hs@.len() && hs@[j as int]@ == h@ && forall|k: int|
            0 <= k < j ==> (#[trigger] hs@[k])@ != h@,
        r is None ==> !has_handle(hs@, h@),
{
    let mut j: usize = 0;
    while j < hs.len()
        invariant
            0 <= j <= hs@.len(),
            forall|k: int| 0 <= k < j ==> (#[trigger] hs@[k])@ != h@,
        decreases hs@.len() - j,
    {
        if hs[j] == *h {
            return Some(j);
        }
        j += 1;
    }
    None
}

fn contains_id(ids: &Vec<u64>, id: u64) -> (r: bool)
    ensures
        r == has_id(ids@, id),
{
    let mut i: usize = 0;
    while i < ids.len()
        invariant
            0 <= i <= ids@.len(),
            forall|k: int| 0 <= k < i ==> ids@[k] != id,
        decreases ids@.len() - i,
    {
        if ids[i] == id {
            return true;
        }
        i += 1;
    }
    false
}

fn find_pending(pending: &Vec<PendingRequest>, request_id: u64) -> (r: Option<usize>)
    ensures
        r matches Some(i) ==> is_first_match(pending@, request_id, i as int),
        r is None ==> forall|k: int|
            0 <= k < pending@.len() ==> !has_id((#[trigger] pending@[k]).request_ids@, request_id),
{
    let mut i: usize = 0;
    while i < pending.len()
        invariant
            0 <= i <= pending@.len(),
            forall|k: int|
                0 <= k < i ==> !has_id((#[trigger] pending@[k]).request_ids@, request_id),
        decreases pending@.len() - i,
    {
        if contains_id(&pending[i].request_ids, request_id) {
            return Some(i);
        }
        i += 1;
    }
    None
}

fn agent_score_valid(s: &AgentScore) -> (r: bool)
    ensures
        r == s.wf(),
{
    let d: &str = &s.id_domain;
    let a: &str = &s.agent_id;
    !d.is_empty() && !a.is_empty() && s.score.is_valid()
}

/// Whether a response is fit for fusion: every score inside the fixed-point
/// caps and no agent listed twice.
pub fn validate_response(resp: &TrustResponse) -> (r: bool)
    ensures
        r == resp.wf(),
{
    let n = resp.scores.len();
    let mut i: usize = 0;
    while i < n
        invariant
            0 <= i <= resp.scores@.len(),
            n == resp.scores@.len(),
            forall|k: int| 0 <= k < i ==> (#[trigger] resp.scores@[k]).wf(),
            forall|x: int, y: int|
                0 <= x < y < i ==> !((#[trigger] resp.scores@[x]).id_domain@ == (
                #[trigger] resp.scores@[y]).id_domain@ && resp.scores@[x].agent_id@
                    == resp.scores@[y].agent_id@),
        decreases resp.scores@.len() - i,
    {
        if !agent_score_valid(&resp.scores[i]) {
            return false;
        }
        let mut j: usize = 0;
        while j < i
            invariant
                0 <= j <= i < resp.scores@.len(),
                forall|x: int|
                    0 <= x < j ==> !((#[trigger] resp.scores@[x]).id_domain@ == resp.scores@[
                        i as int].id_domain@ && resp.scores@[x].agent_id@ == resp.scores@[
                        i as int].agent_id@),
            decreases i - j,
        {
            if resp.scores[j].id_domain == resp.scores[i].id_domain && resp.scores[j].agent_id
                == resp.scores[i].agent_id {
                return false;
            }
            j += 1;
        }
        i += 1;
    }
    true
}

impl TrustNode {
    /// Drains one record: merges its phase-1 table with everything that
    /// arrived and stamps the answer.
    fn drain_record(record: PendingRequest, now: i64) -> (r: TrustResponse)
        requires
            pending_wf(record),
            record.waiting_for@.len() == 0,
        ensures
            response_of_table(
                r,
                fanin_rows(table_view(record.table@), all_scores(record.responses@)),
                now as int,
            ),
            forall|i: int|
                0 <= i < r.scores@.len() ==> ((#[trigger] r.scores@[i]).score.total_volume > 0
                    ==> r.scores@[i].score.data_points >= 1),
    {
        let flat = collect_scores(&record.responses);
        proof {
            lemma_all_scores_wf(record.responses@);
        }
        let table2 = finish_table(&record.table, &flat);
        let resp = merge_table(&table2, now);
        proof {
            let ftv = fanin_rows(table_view(record.table@), all_scores(record.responses@));
            assert(table_view(table2@) == ftv);
            assert forall|i: int| 0 <= i < ftv.len() implies (
            #[trigger] resp.scores@[i]).id_domain@ == ftv[i].0.id_domain@ && resp.scores@[
                i].agent_id@ == ftv[i].0.agent_id@ && resp.scores@[i].score == merged_score(
                ftv[i].1,
            ) by {
                assert(table_view(table2@)[i] == (table2@[i].agent, table2@[i].entries@));
            }
        }
        resp
    }

    /// Handles an arrived peer response: caches every well-formed score it
    /// carries as that peer's opinion, and when the response belongs to an
    /// awaited fan-out, records it; the record that runs out of awaited
    /// peers is drained and its merged answer handed back with the reply
    /// token. A response from a peer the record is not waiting on is cached
    /// but otherwise ignored.
    pub fn on_response(
        &mut self,
        request_id: u64,
        from_peer: &String,
        response: TrustResponse,
        now: i64,
    ) -> (r: Option<(u64, TrustResponse)>)
        requires
            old(self).wf(),
            0 <= now <= TS_CAP,
        ensures
            final(self).wf(),
            final(self).store.experiences@ == old(self).store.experiences@,
            final(self).store.peers@ == old(self).store.peers@,
            final(self).next_request_id == old(self).next_request_id,
            response.wf() && from_peer@.len() > 0 ==> response_cached(
                final(self).store.cached@,
                response.scores@,
                from_peer@,
                now as int,
            ),
            (forall|k: int|
                0 <= k < old(self).pending@.len() ==> !has_id(
                    (#[trigger] old(self).pending@[k]).request_ids@,
                    request_id,
                )) ==> final(self).pending@ == old(self).pending@ && r is None,
            forall|pi: int|
                is_first_match(old(self).pending@, request_id, pi) ==> ({
                    let rec = old(self).pending@[pi];
                    let waiting2 = remove_first_handle(rec.waiting_for@, from_peer@);
                    let responses2 = if response.wf() {
                        rec.responses@.push(response)
                    } else {
                        rec.responses@
                    };
                    &&& (!has_handle(rec.waiting_for@, from_peer@) ==> final(self).pending@ == old(self).pending@ && r is None)
                    &&& (has_handle(rec.waiting_for@, from_peer@) && waiting2.len() > 0 ==> r
                        is None && final(self).pending@.len() == old(self).pending@.len() && (
                    forall|k: int|
                        0 <= k < old(self).pending@.len() && k != pi ==> #[trigger] final(self).pending@[k] == old(self).pending@[k]) && final(self).pending@[pi].waiting_for@ == waiting2 && final(self).pending@[pi].responses@
                        == responses2 && final(self).pending@[pi].request_ids@ == rec.request_ids@
                        && final(self).pending@[pi].reply_token == rec.reply_token && table_view(
                        final(self).pending@[pi].table@,
                    ) == table_view(rec.table@))
                    &&& (has_handle(rec.waiting_for@, from_peer@) && waiting2.len() == 0 ==> final(self).pending@ == old(self).pending@.remove(pi) && (r matches Some(reply)
                        && reply.0 == rec.reply_token && response_of_table(
                        reply.1,
                        fanin_rows(table_view(rec.table@), all_scores(responses2)),
                        now as int,
                    )))
                }),
    {
        let valid = validate_response(&response);
        // cache every well-formed score as this peer's opinion (best effort)
        let fp: &str = from_peer;
        let from_ok = !fp.is_empty();
        let ghost cs0 = self.store.cached@;
        let mut ci: usize = 0;
        while ci < response.scores.len()
            invariant
                0 <= ci <= response.scores@.len(),
                self.store.wf(),
                old(self).wf(),
                valid == response.wf(),
                from_ok == (from_peer@.len() > 0),
                0 <= now <= TS_CAP,
                self.store.experiences@ == old(self).store.experiences@,
                self.store.peers@ == old(self).store.peers@,
                self.pending@ == old(self).pending@,
                self.next_request_id == old(self).next_request_id,
                valid && from_ok ==> forall|i: int|
                    0 <= i < ci ==> cached_one(
                        self.store.cached@,
                        #[trigger] response.scores@[i],
                        from_peer@,
                        now as int,
                    ),
            decreases response.scores@.len() - ci,
        {
            let s = &response.scores[ci];
            let row = CachedTrustScore {
                id_domain: s.id_domain.clone(),
                agent_id: s.agent_id.clone(),
                score: s.score,
                from_peer: from_peer.clone(),
                cached_at: now,
            };
            let ghost before = self.store.cached@;
            if row.is_valid() {
                let _ = self.store.cache_trust_score(row);
            }
            proof {
                if valid && from_ok {
                    assert(response.scores@[ci as int].wf());
                    assert(row.wf());
                    let after = self.store.cached@;
                    assert forall|i: int| 0 <= i < ci + 1 implies cached_one(
                        after,
                        #[trigger] response.scores@[i],
                        from_peer@,
                        now as int,
                    ) by {
                        if i < ci {
                            assert(cached_one(before, response.scores@[i], from_peer@, now as int));
                            assert(!(response.scores@[i].id_domain@ == row.id_domain@
                                && response.scores@[i].agent_id@ == row.agent_id@));
                            lemma_cached_one_after_upsert(
                                before,
                                after,
                                response.scores@[i],
                                row,
                                from_peer@,
                                now as int,
                            );
                        } else {
                            if after == before.push(row) {
                                assert(after[before.len() as int] == row);
                            } else {
                                let idx = choose|idx: int|
                                    0 <= idx < before.len() && (#[trigger] before[idx]).id_domain@
                                        == row.id_domain@ && before[idx].agent_id@ == row.agent_id@
                                        && before[idx].from_peer@ == row.from_peer@ && after
                                        == before.update(idx, row);
                                assert(after[idx] == row);
                            }
                        }
                    }
                }
            }
            ci += 1;
        }
        // attribute the response to its fan-out, if any
        let pi = match find_pending(&self.pending, request_id) {
            Some(pi) => pi,
            None => {
                return None;
            },
        };
        let ghost rec0 = self.pending@[pi as int];
        let mut record = self.pending.remove(pi);
        // find the awaited peer; a mismatch is ignored (the cache kept it)
        let j = match find_handle_index(&record.waiting_for, from_peer) {
            Some(j) => j,
            None => {
                proof {
                    assert(!has_handle(rec0.waiting_for@, from_peer@));
                }
                self.pending.insert(pi, record);
                proof {
                    assert(self.pending@ =~= old(self).pending@);
                }
                return None;
            },
        };
        proof {
            assert(has_handle(rec0.waiting_for@, from_peer@));
            lemma_remove_first_handle(rec0.waiting_for@, from_peer@, j as int);
        }
        record.waiting_for.remove(j);
        if valid {
            record.responses.push(response);
        }
        proof {
            assert(record.waiting_for@ == remove_first_handle(rec0.waiting_for@, from_peer@));
            assert(pending_wf(record));
        }
        if record.waiting_for.len() == 0 {
            let token = record.reply_token;
            let resp = TrustNode::drain_record(record, now);
            proof {
                assert(self.pending@ =~= old(self).pending@.remove(pi as int));
            }
            Some((token, resp))
        } else {
            self.pending.insert(pi, record);
            proof {
                assert(forall|k: int|
                    0 <= k < old(self).pending@.len() && k != pi as int ==> #[trigger] self.pending@[k]
                        == old(self).pending@[k]);
            }
            None
        }
    }

    /// Handles an outbound sub-query failure (timeout, codec error, dial
    /// failure): the failing peer leaves the waiting set; the record that
    /// runs out of awaited peers is drained. When nothing at all arrived and
    /// the local table is empty too, the originator gets an error instead of
    /// an answer.
    pub fn on_failure(&mut self, request_id: u64, from_peer: &String, now: i64) -> (r: Option<
        (u64, Result<TrustResponse, TrustError>),
    >)
        requires
            old(self).wf(),
            0 <= now <= TS_CAP,
        ensures
            final(self).wf(),
            final(self).store.experiences@ == old(self).store.experiences@,
            final(self).store.peers@ == old(self).store.peers@,
            final(self).store.cached@ == old(self).store.cached@,
            final(self).next_request_id == old(self).next_request_id,
            (forall|k: int|
                0 <= k < old(self).pending@.len() ==> !has_id(
                    (#[trigger] old(self).pending@[k]).request_ids@,
                    request_id,
                )) ==> final(self).pending@ == old(self).pending@ && r is None,
            forall|pi: int|
                is_first_match(old(self).pending@, request_id, pi) ==> ({
                    let rec = old(self).pending@[pi];
                    let waiting2 = remove_first_handle(rec.waiting_for@, from_peer@);
                    &&& (!has_handle(rec.waiting_for@, from_peer@) ==> final(self).pending@ == old(self).pending@ && r is None)
                    &&& (has_handle(rec.waiting_for@, from_peer@) && waiting2.len() > 0 ==> r
                        is None && final(self).pending@.len() == old(self).pending@.len() && (
                    forall|k: int|
                        0 <= k < old(self).pending@.len() && k != pi ==> #[trigger] final(self).pending@[k] == old(self).pending@[k]) && final(self).pending@[pi].waiting_for@ == waiting2 && final(self).pending@[pi].responses@
                        == rec.responses@ && final(self).pending@[pi].request_ids@
                        == rec.request_ids@ && final(self).pending@[pi].reply_token
                        == rec.reply_token && table_view(final(self).pending@[pi].table@)
                        == table_view(rec.table@))
                    &&& (has_handle(rec.waiting_for@, from_peer@) && waiting2.len() == 0 ==> final(self).pending@ == old(self).pending@.remove(pi) && (r matches Some(reply)
                        && reply.0 == rec.reply_token && (rec.responses@.len() == 0
                        && rec.table@.len() == 0 ==> reply.1 == Err::<TrustResponse, TrustError>(
                        TrustError::AllRequestsFailed,
                    )) && (!(rec.responses@.len() == 0 && rec.table@.len() == 0) ==> (
                    reply.1 matches Ok(resp) && response_of_table(
                        resp,
                        fanin_rows(table_view(rec.table@), all_scores(rec.responses@)),
                        now as int,
                    )))))
                }),
    {
        let pi = match find_pending(&self.pending, request_id) {
            Some(pi) => pi,
            None => {
                return None;
            },
        };
        let ghost rec0 = self.pending@[pi as int];
        let mut record = self.pending.remove(pi);
        let j = match find_handle_index(&record.waiting_for, from_peer) {
            Some(j) => j,
            None => {
                proof {
                    assert(!has_handle(rec0.waiting_for@, from_peer@));
                }
                self.pending.insert(pi, record);
                proof {
                    assert(self.pending@ =~= old(self).pending@);
                }
                return None;
            },
        };
        proof {
            assert(has_handle(rec0.waiting_for@, from_peer@));
            lemma_remove_first_handle(rec0.waiting_for@, from_peer@, j as int);
        }
        record.waiting_for.remove(j);
        proof {
            assert(pending_wf(record));
        }
        if record.waiting_for.len() == 0 {
            let token = record.reply_token;
            proof {
                assert(self.pending@ =~= old(self).pending@.remove(pi as int));
            }
            if record.responses.len() == 0 && record.table.len() == 0 {
                Some((token, Err(TrustError::AllRequestsFailed)))
            } else {
                let resp = TrustNode::drain_record(record, now);
                Some((token, Ok(resp)))
            }
        } else {
            self.pending.insert(pi, record);
            proof {
                assert(forall|k: int|
                    0 <= k < old(self).pending@.len() && k != pi as int ==> #[trigger] self.pending@[k]
                        == old(self).pending@[k]);
            }
            None
        }
    }
}


/// The dials one reconnect tick plans, as view pairs: the registry handle
/// and, when it is a multiaddress, the embedded peer identifier. A peer is
/// dialed when its canonical identifier is not currently connected; at most
/// `budget` dials are planned.
pub open spec fn dial_plan_spec(reg: Seq<Peer>, connected: Seq<String>, budget: int) -> Seq<
    (Seq<char>, Option<Seq<char>>),
>
    decreases reg.len(),
{
    if reg.len() == 0 || budget <= 0 {
        Seq::empty()
    } else {
        let handle = reg[0].peer_id@;
        if !has_handle(connected, canonical_id(handle)) {
            seq![(handle, peer_id_of(handle))] + dial_plan_spec(
                reg.drop_first(),
                connected,
                budget - 1,
            )
        } else {
            dial_plan_spec(reg.drop_first(), connected, budget)
        }
    }
}

/// One planned dial: a multiaddress whose embedded peer identifier should
/// also join the routing table, or a bare handle to dial as-is.
pub enum DialAction {
    DialAddress { address: String, peer_id: String },
    DialHandle { handle: String },
}

impl DialAction {
    /// The view pair a dial action stands for.
    pub open spec fn view_pair(&self) -> (Seq<char>, Option<Seq<char>>) {
        match self {
            DialAction::DialAddress { address, peer_id } => (address@, Some(peer_id@)),
            DialAction::DialHandle { handle } => (handle@, Option::<Seq<char>>::None),
        }
    }
}

impl TrustNode {
    /// Plans one reconnect tick: dials every registered peer that is not
    /// currently connected, capped at `MAX_CONNECTION_ATTEMPTS` per tick.
    pub fn connect_plan(&self, connected: &Vec<String>) -> (r: Vec<DialAction>)
        requires
            self.wf(),
        ensures
            r@.len() <= MAX_CONNECTION_ATTEMPTS,
            r@.len() == dial_plan_spec(
                self.store.peers@,
                connected@,
                MAX_CONNECTION_ATTEMPTS as int,
            ).len(),
            forall|i: int|
                0 <= i < r@.len() ==> (#[trigger] r@[i]).view_pair() == dial_plan_spec(
                    self.store.peers@,
                    connected@,
                    MAX_CONNECTION_ATTEMPTS as int,
                )[i],
    {
        let ghost reg = self.store.peers@;
        let mut plan: Vec<DialAction> = Vec::new();
        let ghost full = dial_plan_spec(reg, connected@, MAX_CONNECTION_ATTEMPTS as int);
        let ghost done = Seq::<(Seq<char>, Option<Seq<char>>)>::empty();
        let mut budget: usize = MAX_CONNECTION_ATTEMPTS;
        let mut i: usize = 0;
        proof {
            assert(reg.subrange(0, reg.len() as int) =~= reg);
            assert(done + dial_plan_spec(
                reg.subrange(0, reg.len() as int),
                connected@,
                MAX_CONNECTION_ATTEMPTS as int,
            ) =~= full);
        }
        while i < self.store.peers.len() && budget > 0
            invariant
                0 <= i <= reg.len(),
                self.store.peers@ == reg,
                full == dial_plan_spec(reg, connected@, MAX_CONNECTION_ATTEMPTS as int),
                0 <= budget <= MAX_CONNECTION_ATTEMPTS,
                plan@.len() == MAX_CONNECTION_ATTEMPTS - budget,
                done.len() == plan@.len(),
                forall|k: int|
                    0 <= k < plan@.len() ==> (#[trigger] plan@[k]).view_pair() == done[k],
                full == done + dial_plan_spec(
                    reg.subrange(i as int, reg.len() as int),
                    connected@,
                    budget as int,
                ),
            decreases reg.len() - i,
        {
            let ghost suffix = reg.subrange(i as int, reg.len() as int);
            proof {
                assert(suffix[0] == reg[i as int]);
                assert(suffix.drop_first() =~= reg.subrange(i + 1, reg.len() as int));
            }
            let peer = &self.store.peers[i];
            let c: String = match parse_peer_multiaddr(&peer.peer_id) {
                Some(p) => p,
                None => peer.peer_id.clone(),
            };
            assert(c@ == canonical_id(reg[i as int].peer_id@));
            if !contains_handle(connected, &c) {
                let action = match parse_peer_multiaddr(&peer.peer_id) {
                    Some(pid) => DialAction::DialAddress {
                        address: peer.peer_id.clone(),
                        peer_id: pid,
                    },
                    None => DialAction::DialHandle { handle: peer.peer_id.clone() },
                };
                proof {
                    let pair = (reg[i as int].peer_id@, peer_id_of(reg[i as int].peer_id@));
                    assert(action.view_pair() == pair);
                    assert(done + (seq![pair] + dial_plan_spec(
                        reg.subrange(i + 1, reg.len() as int),
                        connected@,
                        budget - 1,
                    )) =~= done.push(pair) + dial_plan_spec(
                        reg.subrange(i + 1, reg.len() as int),
                        connected@,
                        budget - 1,
                    ));
                }
                plan.push(action);
                proof {
                    done = done.push(action.view_pair());
                }
                budget = budget - 1;
            }
            i += 1;
        }
        proof {
            let suffix = reg.subrange(i as int, reg.len() as int);
            if i == reg.len() {
                assert(suffix =~= Seq::<Peer>::empty());
                assert(dial_plan_spec(suffix, connected@, budget as int) =~= Seq::<
                    (Seq<char>, Option<Seq<char>>),
                >::empty());
            } else {
                assert(budget == 0);
                assert(dial_plan_spec(suffix, connected@, 0) =~= Seq::<
                    (Seq<char>, Option<Seq<char>>),
                >::empty());
            }
            assert(done + Seq::<(Seq<char>, Option<Seq<char>>)>::empty() =~= done);
            assert(full == done);
        }
        plan
    }

    /// Registers a peer in the store-backed registry and plans the dial the
    /// transport should attempt: when the handle is a multiaddress with an
    /// embedded peer identifier, its address joins the routing table and is
    /// dialed.
    pub fn add_peer_cmd(&mut self, peer: Peer) -> (r: (Result<(), TrustError>, Option<DialAction>))
        requires
            old(self).wf(),
        ensures
            final(self).wf(),
            final(self).pending@ == old(self).pending@,
            final(self).store.experiences@ == old(self).store.experiences@,
            final(self).store.cached@ == old(self).store.cached@,
            !peer.wf() ==> r.0 == Err::<(), TrustError>(TrustError::Input) && final(self).store.peers@ == old(self).store.peers@,
            peer.wf() && crate::store::has_peer_id(old(self).store.peers@, peer.peer_id@) ==> r.0
                == Err::<(), TrustError>(TrustError::Conflict) && final(self).store.peers@ == old(self).store.peers@,
            peer.wf() && !crate::store::has_peer_id(old(self).store.peers@, peer.peer_id@) && old(self).store.peers@.len() >= MAX_PEERS ==> r.0 == Err::<(), TrustError>(TrustError::Busy)
                && final(self).store.peers@ == old(self).store.peers@,
            peer.wf() && !crate::store::has_peer_id(old(self).store.peers@, peer.peer_id@) && old(self).store.peers@.len() < MAX_PEERS ==> r.0 == Ok::<(), TrustError>(()) && final(self).store.peers@ == old(self).store.peers@.push(peer),
            (r.1 is Some) == (peer_id_of(peer.peer_id@) is Some),
            r.1 matches Some(action) ==> (action matches DialAction::DialAddress {
                address,
                peer_id,
            } && address@ == peer.peer_id@ && (peer_id_of(peer.peer_id@) matches Some(q) && peer_id@
                == q)),
    {
        let action: Option<DialAction> = match parse_peer_multiaddr(&peer.peer_id) {
            Some(pid) => Some(
                DialAction::DialAddress { address: peer.peer_id.clone(), peer_id: pid },
            ),
            None => None,
        };
        let result = self.store.add_peer(peer);
        (result, action)
    }

    /// Records a fresh first-hand experience: stamps it with a new random
    /// identifier and the current clock, validates it, and inserts it into
    /// the ledger. Returns the stored record. The arguments are rejected as
    /// an input error exactly when a field is out of range or the agent's
    /// summed volume would pass the cap; an accepted record can only fail
    /// with a conflict, when the drawn identifier collides with a stored
    /// one — impossible on an empty ledger.
    pub fn record_experience(
        &mut self,
        id_domain: String,
        agent_id: String,
        pv_roi: i64,
        invested_volume: u64,
        notes: Option<String>,
        data: Option<String>,
    ) -> (r: Result<TrustExperience, TrustError>)
        requires
            old(self).wf(),
        ensures
            final(self).wf(),
            final(self).pending@ == old(self).pending@,
            final(self).store.peers@ == old(self).store.peers@,
            final(self).store.cached@ == old(self).store.cached@,
            r is Err ==> final(self).store.experiences@ == old(self).store.experiences@,
            (r == Err::<TrustExperience, TrustError>(TrustError::Input))
                <==> !experience_args_ok(
                old(self).store.experiences@,
                id_domain@,
                agent_id@,
                pv_roi,
                invested_volume,
            ),
            experience_args_ok(
                old(self).store.experiences@,
                id_domain@,
                agent_id@,
                pv_roi,
                invested_volume,
            ) ==> (r is Ok || r == Err::<TrustExperience, TrustError>(TrustError::Conflict)),
            r == Err::<TrustExperience, TrustError>(TrustError::Conflict) ==> old(
                self,
            ).store.experiences@.len() > 0,
            old(self).store.experiences@.len() == 0 && experience_args_ok(
                old(self).store.experiences@,
                id_domain@,
                agent_id@,
                pv_roi,
                invested_volume,
            ) ==> r is Ok,
            r matches Ok(e) ==> e.wf() && e.id@.len() == 36 && e.id_domain@ == id_domain@
                && e.agent_id@ == agent_id@ && e.pv_roi == pv_roi && e.invested_volume
                == invested_volume && final(self).store.experiences@.to_multiset() == old(
                self,
            ).store.experiences@.to_multiset().insert(e),
    {
        let d_ref: &str = &id_domain;
        let a_ref: &str = &agent_id;
        let fields_ok = !d_ref.is_empty() && !a_ref.is_empty() && 0 <= pv_roi && pv_roi <= ROI_CAP
            && invested_volume > 0 && invested_volume <= VOL_CAP;
        proof {
            lemma_agent_volume_nonneg(self.store.experiences@, id_domain@, agent_id@);
        }
        if !fields_ok {
            return Err(TrustError::Input);
        }
        let current = agent_volume_of(&self.store.experiences, &id_domain, &agent_id);
        if current > VOL_CAP - invested_volume {
            return Err(TrustError::Input);
        }
        let id = new_experience_id();
        let raw_now = now_epoch_seconds();
        let timestamp: i64 = if raw_now < 0 {
            0
        } else if raw_now > TS_CAP {
            TS_CAP
        } else {
            raw_now
        };
        let experience = TrustExperience {
            id,
            id_domain,
            agent_id,
            pv_roi,
            invested_volume,
            timestamp,
            notes,
            data,
        };
        assert(experience.wf());
        let copy = experience.clone();
        match self.store.add_experience(experience) {
            Ok(()) => Ok(copy),
            Err(err) => {
                proof {
                    // the record is well-formed and inside the volume cap,
                    // so the only refusal left is an identifier collision
                    assert(err == TrustError::Conflict);
                    assert(crate::store::has_exp_id(self.store.experiences@, copy.id@));
                    let i = choose|i: int|
                        0 <= i < self.store.experiences@.len() && (
                        #[trigger] self.store.experiences@[i]).id@ == copy.id@;
                }
                Err(err)
            },
        }
    }
}

/// What a recorded experience's arguments must satisfy: non-empty agent
/// key, ROI and volume inside the fixed-point caps, and room under the
/// agent's summed-volume cap.
pub open spec fn experience_args_ok(
    es: Seq<TrustExperience>,
    id_domain: Seq<char>,
    agent_id: Seq<char>,
    pv_roi: i64,
    invested_volume: u64,
) -> bool {
    &&& id_domain.len() > 0
    &&& agent_id.len() > 0
    &&& 0 <= pv_roi <= ROI_CAP
    &&& 0 < invested_volume
    &&& agent_volume(es, id_domain, agent_id) + invested_volume <= VOL_CAP
}

/// Fuses a list of already-aggregated peer responses into one, each score
/// entering at full weight, grouped by agent. What a node answers when it
/// combines fan-in responses without local data of its own.
pub fn merge_responses(responses: Vec<TrustResponse>, now: i64) -> (r: TrustResponse)
    requires
        forall|i: int| 0 <= i < responses@.len() ==> (#[trigger] responses@[i]).wf(),
        responses@.len() <= MAX_PEERS,
    ensures
        response_of_table(
            r,
            fanin_rows(
                Seq::<(AgentIdentifier, Seq<Contribution>)>::empty(),
                all_scores(responses@),
            ),
            now as int,
        ),
{
    let flat = collect_scores(&responses);
    proof {
        lemma_all_scores_wf(responses@);
    }
    let empty_table: Vec<AgentContributions> = Vec::new();
    proof {
        assert(table_view(empty_table@) =~= Seq::<(AgentIdentifier, Seq<Contribution>)>::empty());
    }
    let table2 = finish_table(&empty_table, &flat);
    let resp = merge_table(&table2, now);
    proof {
        let ftv = fanin_rows(
            Seq::<(AgentIdentifier, Seq<Contribution>)>::empty(),
            all_scores(responses@),
        );
        assert(table_view(table2@) == ftv);
        assert forall|i: int| 0 <= i < ftv.len() implies (#[trigger] resp.scores@[i]).id_domain@
            == ftv[i].0.id_domain@ && resp.scores@[i].agent_id@ == ftv[i].0.agent_id@
            && resp.scores@[i].score == merged_score(ftv[i].1) by {
            assert(table_view(table2@)[i] == (table2@[i].agent, table2@[i].entries@));
        }
    }
    resp
}

} // verus!


