//! Export and import of the node's trust data: a versioned document holding
//! the experiences and peers; cached opinions are not exported.
use vstd::prelude::*;
use vstd::seq_lib::group_to_multiset_ensures;
use crate::store::{agent_volume, has_exp_id, has_peer_id, lemma_agent_volume_nonneg, TrustStore};
use crate::types::{Peer, TrustExperience};
use crate::{TrustError, MAX_PEERS, TS_CAP, VOL_CAP};

verus! {

/// The versioned trust-data document: the experiences and peers of a node
/// at one point in time.
pub struct TrustDataExport {
    pub version: String,
    pub exported_at: i64,
    pub experiences: Vec<TrustExperience>,
    pub peers: Vec<Peer>,
}

impl TrustDataExport {
    pub fn new(experiences: Vec<TrustExperience>, peers: Vec<Peer>, exported_at: i64) -> (r:
        TrustDataExport)
        ensures
            r.version@ == "1.0"@,
            r.exported_at == exported_at,
            r.experiences@ == experiences@,
            r.peers@ == peers@,
    {
        let version: String = "1.0".to_string();
        TrustDataExport { version, exported_at, experiences, peers }
    }
}

/// What a document must satisfy for an overwrite-import into a fresh store
/// to reproduce it exactly: well-formed rows, unique keys, per-agent volume
/// sums inside the cap, and a peer list the registry can hold.
pub open spec fn import_clean(es: Seq<TrustExperience>, ps: Seq<Peer>) -> bool {
    &&& forall|i: int| 0 <= i < es.len() ==> (#[trigger] es[i]).wf()
    &&& forall|i: int, j: int|
        0 <= i < j < es.len() ==> (#[trigger] es[i]).id@ != (#[trigger] es[j]).id@
    &&& forall|d: Seq<char>, a: Seq<char>| #[trigger] agent_volume(es, d, a) <= VOL_CAP
    &&& forall|i: int| 0 <= i < ps.len() ==> (#[trigger] ps[i]).wf()
    &&& forall|i: int, j: int|
        0 <= i < j < ps.len() ==> (#[trigger] ps[i]).peer_id@ != (#[trigger] ps[j]).peer_id@
    &&& ps.len() <= MAX_PEERS
}

/// Snapshots the store as a versioned document: every experience and every
/// peer, stamped with the export time. Cached opinions stay behind.
pub fn export_trust_data(store: &TrustStore, now: i64) -> (r: TrustDataExport)
    requires
        store.wf(),
    ensures
        r.version@ == "1.0"@,
        r.exported_at == now,
        r.experiences@ == store.experiences@,
        r.peers@ == store.peers@,
        import_clean(r.experiences@, r.peers@),
{
    let experiences = store.get_all_experiences();
    let peers = store.get_peers();
    TrustDataExport::new(experiences, peers, now)
}

proof fn lemma_agent_volume_multiset(
    es1: Seq<TrustExperience>,
    es2: Seq<TrustExperience>,
    d: Seq<char>,
    a: Seq<char>,
)
    requires
        es1.to_multiset() == es2.to_multiset(),
    ensures
        agent_volume(es1, d, a) == agent_volume(es2, d, a),
    decreases es1.len(),
{
    broadcast use group_to_multiset_ensures;

    assert(es1.to_multiset().len() == es1.len());
    assert(es2.to_multiset().len() == es2.len());
    if es1.len() == 0 {
        assert(es2.len() == 0);
    } else {
        let x = es1[0];
        assert(es1.contains(x));
        assert(es1.to_multiset().count(x) > 0);
        assert(es2.to_multiset().count(x) > 0);
        assert(es2.contains(x));
        let i = choose|i: int| 0 <= i < es2.len() && es2[i] == x;
        crate::store::lemma_agent_volume_remove(es2, i, d, a);
        assert(es1.remove(0) =~= es1.drop_first());
        assert(es1.remove(0).to_multiset() == es1.to_multiset().remove(x));
        assert(es2.remove(i).to_multiset() == es2.to_multiset().remove(x));
        lemma_agent_volume_multiset(es1.drop_first(), es2.remove(i), d, a);
    }
}

proof fn lemma_has_exp_id_multiset(es1: Seq<TrustExperience>, es2: Seq<TrustExperience>, id: Seq<
    char,
>)
    requires
        es1.to_multiset() == es2.to_multiset(),
        has_exp_id(es1, id),
    ensures
        has_exp_id(es2, id),
{
    broadcast use group_to_multiset_ensures;

    let i = choose|i: int| 0 <= i < es1.len() && (#[trigger] es1[i]).id@ == id;
    let x = es1[i];
    assert(es1.contains(x));
    assert(es1.to_multiset().count(x) > 0);
    assert(es2.to_multiset().count(x) > 0);
    assert(es2.contains(x));
    let j = choose|j: int| 0 <= j < es2.len() && es2[j] == x;
    assert(es2[j].id@ == id);
}

proof fn lemma_agent_volume_prefix(es: Seq<TrustExperience>, i: int, d: Seq<char>, a: Seq<char>)
    requires
        0 <= i <= es.len(),
    ensures
        agent_volume(es.subrange(0, i), d, a) + agent_volume(
            es.subrange(i, es.len() as int),
            d,
            a,
        ) == agent_volume(es, d, a),
    decreases i,
{
    if i == 0 {
        assert(es.subrange(0, 0) =~= Seq::<TrustExperience>::empty());
        assert(es.subrange(0, es.len() as int) =~= es);
    } else {
        assert(es.subrange(0, i)[0] == es[0]);
        assert(es.subrange(0, i).drop_first() =~= es.drop_first().subrange(0, i - 1));
        assert(es.subrange(i, es.len() as int) =~= es.drop_first().subrange(
            i - 1,
            es.drop_first().len() as int,
        ));
        lemma_agent_volume_prefix(es.drop_first(), i - 1, d, a);
    }
}

/// One experience-import step: the record joins when `overwrite` is set or
/// its agent holds no volume yet. With well-formed rows "holds no volume"
/// coincides with "has no stored experiences", since every stored volume is
/// positive.
pub open spec fn import_exp_step(
    cur: Seq<TrustExperience>,
    e: TrustExperience,
    overwrite: bool,
) -> Seq<TrustExperience> {
    if overwrite || agent_volume(cur, e.id_domain@, e.agent_id@) == 0 {
        cur.push(e)
    } else {
        cur
    }
}

/// The experience table after importing `data` into `cur`, record by record
/// in document order; rows already present are never modified or removed.
pub open spec fn import_exps(
    cur: Seq<TrustExperience>,
    data: Seq<TrustExperience>,
    overwrite: bool,
) -> Seq<TrustExperience>
    decreases data.len(),
{
    if data.len() == 0 {
        cur
    } else {
        import_exps(import_exp_step(cur, data[0], overwrite), data.drop_first(), overwrite)
    }
}

/// One peer-import step: the entry joins when `overwrite` is set or its
/// handle is absent.
pub open spec fn import_peer_step(cur: Seq<Peer>, p: Peer, overwrite: bool) -> Seq<Peer> {
    if overwrite || !has_peer_id(cur, p.peer_id@) {
        cur.push(p)
    } else {
        cur
    }
}

/// The peer table after importing `data` into `cur`, entry by entry in
/// document order; entries already present are never modified or removed.
pub open spec fn import_peers(cur: Seq<Peer>, data: Seq<Peer>, overwrite: bool) -> Seq<Peer>
    decreases data.len(),
{
    if data.len() == 0 {
        cur
    } else {
        import_peers(import_peer_step(cur, data[0], overwrite), data.drop_first(), overwrite)
    }
}

proof fn lemma_import_exps_push(
    cur: Seq<TrustExperience>,
    data: Seq<TrustExperience>,
    e: TrustExperience,
    overwrite: bool,
)
    ensures
        import_exps(cur, data.push(e), overwrite) == import_exp_step(
            import_exps(cur, data, overwrite),
            e,
            overwrite,
        ),
    decreases data.len(),
{
    assert(data.push(e).len() == data.len() + 1);
    if data.len() == 0 {
        assert(data.push(e).drop_first() =~= Seq::<TrustExperience>::empty());
        assert(data.push(e)[0] == e);
        assert(import_exps(import_exp_step(cur, e, overwrite), Seq::<TrustExperience>::empty(),
            overwrite) == import_exp_step(cur, e, overwrite));
    } else {
        assert(data.push(e).drop_first() =~= data.drop_first().push(e));
        assert(data.push(e)[0] == data[0]);
        lemma_import_exps_push(import_exp_step(cur, data[0], overwrite), data.drop_first(), e,
            overwrite);
    }
}

proof fn lemma_import_peers_push(cur: Seq<Peer>, data: Seq<Peer>, p: Peer, overwrite: bool)
    ensures
        import_peers(cur, data.push(p), overwrite) == import_peer_step(
            import_peers(cur, data, overwrite),
            p,
            overwrite,
        ),
    decreases data.len(),
{
    assert(data.push(p).len() == data.len() + 1);
    if data.len() == 0 {
        assert(data.push(p).drop_first() =~= Seq::<Peer>::empty());
        assert(data.push(p)[0] == p);
        assert(import_peers(import_peer_step(cur, p, overwrite), Seq::<Peer>::empty(), overwrite)
            == import_peer_step(cur, p, overwrite));
    } else {
        assert(data.push(p).drop_first() =~= data.drop_first().push(p));
        assert(data.push(p)[0] == data[0]);
        lemma_import_peers_push(import_peer_step(cur, data[0], overwrite), data.drop_first(), p,
            overwrite);
    }
}

proof fn lemma_sum_invested_at_least_len(es: Seq<TrustExperience>)
    requires
        forall|i: int| 0 <= i < es.len() ==> (#[trigger] es[i]).wf(),
    ensures
        crate::engine::sum_invested(es) >= es.len(),
    decreases es.len(),
{
    if es.len() > 0 {
        assert(forall|i: int|
            0 <= i < es.drop_first().len() ==> #[trigger] es.drop_first()[i] == es[i + 1]);
        lemma_sum_invested_at_least_len(es.drop_first());
    }
}

/// With well-formed rows, an agent holds zero summed volume exactly when it
/// has no stored experiences.
proof fn lemma_agent_volume_zero(es: Seq<TrustExperience>, d: Seq<char>, a: Seq<char>)
    requires
        forall|i: int| 0 <= i < es.len() ==> (#[trigger] es[i]).wf(),
    ensures
        (agent_volume(es, d, a) == 0) == (crate::store::exps_for(es, d, a).len() == 0),
{
    crate::store::lemma_agent_volume_is_sum(es, d, a);
    crate::engine::lemma_exps_for_wf(es, d, a);
    lemma_sum_invested_at_least_len(crate::store::exps_for(es, d, a));
}

/// Loads a document into the store. With `overwrite` every record is added;
/// without it an experience joins only when its agent has none yet, and a
/// peer only when its handle is absent; rows already present are never
/// modified or removed. The first rejected record aborts the import with
/// its error. A completed import leaves exactly the tables `import_exps`
/// and `import_peers` describe, in either mode; overwrite-importing a clean
/// document into a fresh store reproduces the document's experiences (as a
/// set; the table reorders them newest-first) and its peer list exactly.
pub fn import_trust_data(store: &mut TrustStore, data: &TrustDataExport, overwrite: bool) -> (r:
    Result<(), TrustError>)
    requires
        old(store).wf(),
    ensures
        final(store).wf(),
        final(store).cached@ == old(store).cached@,
        r is Ok ==> final(store).experiences@.to_multiset() == import_exps(
            old(store).experiences@,
            data.experiences@,
            overwrite,
        ).to_multiset() && final(store).peers@ == import_peers(
            old(store).peers@,
            data.peers@,
            overwrite,
        ),
        overwrite && old(store).experiences@.len() == 0 && old(store).peers@.len() == 0
            && import_clean(data.experiences@, data.peers@) ==> r == Ok::<(), TrustError>(())
            && final(store).experiences@.to_multiset() == data.experiences@.to_multiset() && final(store).peers@ == data.peers@,
    {
    let ghost des = data.experiences@;
    let ghost dps = data.peers@;
    let ghost es0 = store.experiences@;
    let ghost ps0 = store.peers@;
    proof {
        assert(es0 == old(store).experiences@);
        assert(ps0 == old(store).peers@);
    }
    let ghost clean = overwrite && es0.len() == 0 && ps0.len() == 0 && import_clean(des, dps);
    proof {
        assert(des.subrange(0, 0) =~= Seq::<TrustExperience>::empty());
        assert(import_exps(es0, Seq::<TrustExperience>::empty(), overwrite) == es0);
        if clean {
            assert(old(store).experiences@ =~= des.subrange(0, 0));
        }
    }
    let mut i: usize = 0;
    while i < data.experiences.len()
        invariant
            0 <= i <= des.len(),
            data.experiences@ == des,
            data.peers@ == dps,
            store.wf(),
            store.cached@ == old(store).cached@,
            clean == (overwrite && es0.len() == 0 && ps0.len() == 0 && import_clean(des, dps)),
            es0 == old(store).experiences@,
            ps0 == old(store).peers@,
            store.peers@ == old(store).peers@,
            store.experiences@.to_multiset() == import_exps(es0, des.subrange(0, i as int),
                overwrite).to_multiset(),
            clean ==> overwrite && import_clean(des, dps) && store.peers@ == old(store).peers@
                && old(store).peers@.len() == 0 && store.experiences@.to_multiset()
                == des.subrange(0, i as int).to_multiset(),
        decreases des.len() - i,
    {
        let e = &data.experiences[i];
        let ghost merged = import_exps(es0, des.subrange(0, i as int), overwrite);
        proof {
            assert(des.subrange(0, i + 1) =~= des.subrange(0, i as int).push(des[i as int]));
            lemma_import_exps_push(es0, des.subrange(0, i as int), des[i as int], overwrite);
            if !overwrite {
                lemma_agent_volume_zero(store.experiences@, des[i as int].id_domain@,
                    des[i as int].agent_id@);
                lemma_agent_volume_multiset(store.experiences@, merged, des[i as int].id_domain@,
                    des[i as int].agent_id@);
            }
        }
        let wanted = if overwrite {
            true
        } else {
            let existing = store.get_experiences(&e.id_domain, &e.agent_id);
            existing.len() == 0
        };
        proof {
            assert(wanted == (overwrite || agent_volume(merged, des[i as int].id_domain@,
                des[i as int].agent_id@) == 0));
        }
        if wanted {
            let ghost before = store.experiences@;
            let ghost prefix = des.subrange(0, i as int);
            proof {
                if clean {
                    broadcast use group_to_multiset_ensures;

                    assert(des[i as int].wf());
                    assert(!has_exp_id(before, des[i as int].id@)) by {
                        if has_exp_id(before, des[i as int].id@) {
                            lemma_has_exp_id_multiset(before, prefix, des[i as int].id@);
                            let j = choose|j: int|
                                0 <= j < prefix.len() && (#[trigger] prefix[j]).id@ == des[
                                    i as int].id@;
                            assert(des[j].id@ == des[i as int].id@);
                        }
                    }
                    let d = des[i as int].id_domain@;
                    let a = des[i as int].agent_id@;
                    lemma_agent_volume_multiset(before, prefix, d, a);
                    lemma_agent_volume_prefix(des, i + 1, d, a);
                    lemma_agent_volume_nonneg(des.subrange(i + 1, des.len() as int), d, a);
                    assert(des.subrange(0, i + 1).drop_last() =~= prefix);
                    assert(des.subrange(0, i + 1).last() == des[i as int]);
                    assert(des.subrange(0, i + 1) =~= prefix.push(des[i as int]));
                    assert(prefix.insert(prefix.len() as int, des[i as int]) =~= prefix.push(
                        des[i as int],
                    ));
                    crate::store::lemma_agent_volume_insert(
                        prefix,
                        des[i as int],
                        prefix.len() as int,
                        d,
                        a,
                    );
                    assert(agent_volume(before, d, a) + des[i as int].invested_volume
                        <= agent_volume(des, d, a));
                }
            }
            match store.add_experience(e.clone()) {
                Ok(()) => {
                    proof {
                        broadcast use group_to_multiset_ensures;

                        assert(store.experiences@.to_multiset() == before.to_multiset().insert(
                            des[i as int],
                        ));
                        assert(import_exp_step(merged, des[i as int], overwrite) == merged.push(
                            des[i as int],
                        ));
                        assert(merged.push(des[i as int]).to_multiset()
                            == merged.to_multiset().insert(des[i as int]));
                        if clean {
                            assert(des.subrange(0, i + 1) =~= prefix.push(des[i as int]));
                            assert(prefix.push(des[i as int]).to_multiset()
                                == prefix.to_multiset().insert(des[i as int]));
                        }
                    }
                },
                Err(err) => {
                    return Err(err);
                },
            }
        } else {
            proof {
                assert(!clean);
                assert(import_exp_step(merged, des[i as int], overwrite) == merged);
            }
        }
        i += 1;
    }
    proof {
        assert(des.subrange(0, des.len() as int) =~= des);
    }
    let mut j: usize = 0;
    proof {
        assert(dps.subrange(0, 0) =~= Seq::<Peer>::empty());
        assert(import_peers(ps0, Seq::<Peer>::empty(), overwrite) == ps0);
        if clean {
            assert(store.peers@ =~= dps.subrange(0, 0));
        }
    }
    while j < data.peers.len()
        invariant
            0 <= j <= dps.len(),
            data.peers@ == dps,
            data.experiences@ == des,
            store.wf(),
            store.cached@ == old(store).cached@,
            clean == (overwrite && es0.len() == 0 && ps0.len() == 0 && import_clean(des, dps)),
            es0 == old(store).experiences@,
            ps0 == old(store).peers@,
            store.experiences@.to_multiset() == import_exps(es0, des, overwrite).to_multiset(),
            store.peers@ == import_peers(ps0, dps.subrange(0, j as int), overwrite),
            clean ==> import_clean(des, dps) && store.experiences@.to_multiset()
                == des.to_multiset() && store.peers@ == dps.subrange(0, j as int),
        decreases dps.len() - j,
    {
        let p = &data.peers[j];
        let ghost merged_p = import_peers(ps0, dps.subrange(0, j as int), overwrite);
        proof {
            assert(dps.subrange(0, j + 1) =~= dps.subrange(0, j as int).push(dps[j as int]));
            lemma_import_peers_push(ps0, dps.subrange(0, j as int), dps[j as int], overwrite);
        }
        let wanted = if overwrite {
            true
        } else {
            !store_has_peer(store, &p.peer_id)
        };
        proof {
            assert(wanted == (overwrite || !has_peer_id(merged_p, dps[j as int].peer_id@)));
        }
        if wanted {
            proof {
                if clean {
                    assert(dps[j as int].wf());
                    assert(!has_peer_id(store.peers@, dps[j as int].peer_id@)) by {
                        if has_peer_id(store.peers@, dps[j as int].peer_id@) {
                            let k = choose|k: int|
                                0 <= k < store.peers@.len() && (#[trigger] store.peers@[
                                    k]).peer_id@ == dps[j as int].peer_id@;
                            assert(dps[k].peer_id@ == dps[j as int].peer_id@);
                        }
                    }
                    assert(store.peers@.len() < MAX_PEERS);
                }
            }
            match store.add_peer(p.clone()) {
                Ok(()) => {
                    proof {
                        assert(import_peer_step(merged_p, dps[j as int], overwrite)
                            == merged_p.push(dps[j as int]));
                        assert(store.peers@ == merged_p.push(dps[j as int]));
                        if clean {
                            assert(store.peers@ =~= dps.subrange(0, j + 1));
                        }
                    }
                },
                Err(err) => {
                    return Err(err);
                },
            }
        } else {
            proof {
                assert(!clean);
                assert(import_peer_step(merged_p, dps[j as int], overwrite) == merged_p);
            }
        }
        j += 1;
    }
    proof {
        assert(dps.subrange(0, dps.len() as int) =~= dps);
    }
    Ok(())
}

fn store_has_peer(store: &TrustStore, peer_id: &String) -> (r: bool)
    ensures
        r == has_peer_id(store.peers@, peer_id@),
{
    let mut i: usize = 0;
    while i < store.peers.len()
        invariant
            0 <= i <= store.peers@.len(),
            forall|k: int| 0 <= k < i ==> (#[trigger] store.peers@[k]).peer_id@ != peer_id@,
        decreases store.peers@.len() - i,
    {
        if store.peers[i].peer_id == *peer_id {
            return true;
        }
        i += 1;
    }
    false
}

/// The round-trip law: a well-formed store's export satisfies everything an
/// overwrite-import needs, so importing the exported document into a fresh
/// store reproduces the experiences (as a set) and the peer list — by the
/// contracts of `export_trust_data` and `import_trust_data`.
pub proof fn lemma_export_import_round_trip(store: TrustStore)
    requires
        store.wf(),
    ensures
        import_clean(store.experiences@, store.peers@),
{
}

} // verus!
