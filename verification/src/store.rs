//! The node's store of experiences, peers and cached peer opinions: a
//! write-through table model with query-by-key reads.
//!
//! Experiences are kept ordered newest-first and unique by identifier, with
//! each agent's summed invested volume inside `VOL_CAP`. Peer handles are
//! unique; at most one cached opinion exists per `(agent, from_peer)` pair.
use vstd::prelude::*;
use vstd::seq_lib::to_multiset_insert;
use crate::engine::sum_invested;
use crate::types::{CachedTrustScore, Peer, TrustExperience};
use crate::{TrustError, MAX_PEERS, SCALE, VOL_CAP};

verus! {

/// The experiences of `es` that concern the agent `(d, a)`, in order.
pub open spec fn exps_for(es: Seq<TrustExperience>, d: Seq<char>, a: Seq<char>) -> Seq<
    TrustExperience,
>
    decreases es.len(),
{
    if es.len() == 0 {
        Seq::empty()
    } else if es[0].is_for(d, a) {
        seq![es[0]] + exps_for(es.drop_first(), d, a)
    } else {
        exps_for(es.drop_first(), d, a)
    }
}

/// The summed invested volume of the experiences of `es` that concern the
/// agent `(d, a)`.
pub open spec fn agent_volume(es: Seq<TrustExperience>, d: Seq<char>, a: Seq<char>) -> int
    decreases es.len(),
{
    if es.len() == 0 {
        0
    } else {
        (if es[0].is_for(d, a) {
            es[0].invested_volume as int
        } else {
            0
        }) + agent_volume(es.drop_first(), d, a)
    }
}

/// Whether some experience in `es` carries the identifier `id`.
pub open spec fn has_exp_id(es: Seq<TrustExperience>, id: Seq<char>) -> bool {
    exists|i: int| 0 <= i < es.len() && (#[trigger] es[i]).id@ == id
}

/// Newest-first: timestamps never grow along the list.
pub open spec fn sorted_newest_first(es: Seq<TrustExperience>) -> bool {
    forall|i: int, j: int|
        0 <= i < j < es.len() ==> (#[trigger] es[i]).timestamp >= (#[trigger] es[j]).timestamp
}

/// The cached opinions of `cs` that concern the agent `(d, a)`, in order.
pub open spec fn cached_for(cs: Seq<CachedTrustScore>, d: Seq<char>, a: Seq<char>) -> Seq<
    CachedTrustScore,
>
    decreases cs.len(),
{
    if cs.len() == 0 {
        Seq::empty()
    } else if cs[0].id_domain@ == d && cs[0].agent_id@ == a {
        seq![cs[0]] + cached_for(cs.drop_first(), d, a)
    } else {
        cached_for(cs.drop_first(), d, a)
    }
}

pub proof fn lemma_agent_volume_is_sum(es: Seq<TrustExperience>, d: Seq<char>, a: Seq<char>)
    ensures
        sum_invested(exps_for(es, d, a)) == agent_volume(es, d, a),
    decreases es.len(),
{
    if es.len() == 0 {
    } else {
        lemma_agent_volume_is_sum(es.drop_first(), d, a);
        if es[0].is_for(d, a) {
            let tail = exps_for(es.drop_first(), d, a);
            assert((seq![es[0]] + tail)[0] == es[0]);
            assert((seq![es[0]] + tail).drop_first() =~= tail);
        }
    }
}

pub proof fn lemma_agent_volume_nonneg(es: Seq<TrustExperience>, d: Seq<char>, a: Seq<char>)
    ensures
        agent_volume(es, d, a) >= 0,
    decreases es.len(),
{
    if es.len() > 0 {
        lemma_agent_volume_nonneg(es.drop_first(), d, a);
    }
}

pub proof fn lemma_agent_volume_insert(
    es: Seq<TrustExperience>,
    e: TrustExperience,
    p: int,
    d: Seq<char>,
    a: Seq<char>,
)
    requires
        0 <= p <= es.len(),
    ensures
        agent_volume(es.insert(p, e), d, a) == agent_volume(es, d, a) + if e.is_for(d, a) {
            e.invested_volume as int
        } else {
            0
        },
    decreases p,
{
    let s2 = es.insert(p, e);
    assert(s2.len() == es.len() + 1);
    if p == 0 {
        assert(s2[0] == e);
        assert(s2.drop_first() =~= es);
    } else {
        assert(s2[0] == es[0]);
        assert(s2.drop_first() =~= es.drop_first().insert(p - 1, e));
        lemma_agent_volume_insert(es.drop_first(), e, p - 1, d, a);
    }
}

pub proof fn lemma_agent_volume_remove(es: Seq<TrustExperience>, p: int, d: Seq<char>, a: Seq<char>)
    requires
        0 <= p < es.len(),
    ensures
        agent_volume(es.remove(p), d, a) == agent_volume(es, d, a) - if es[p].is_for(d, a) {
            es[p].invested_volume as int
        } else {
            0
        },
    decreases p,
{
    let s2 = es.remove(p);
    assert(s2.len() == es.len() - 1);
    if p == 0 {
        assert(s2 =~= es.drop_first());
    } else {
        assert(s2[0] == es[0]);
        assert(s2.drop_first() =~= es.drop_first().remove(p - 1));
        lemma_agent_volume_remove(es.drop_first(), p - 1, d, a);
    }
}

proof fn lemma_exps_for_push(
    es: Seq<TrustExperience>,
    e: TrustExperience,
    d: Seq<char>,
    a: Seq<char>,
)
    ensures
        exps_for(es.push(e), d, a) == if e.is_for(d, a) {
            exps_for(es, d, a).push(e)
        } else {
            exps_for(es, d, a)
        },
    decreases es.len(),
{
    assert(es.push(e).len() == es.len() + 1);
    if es.len() == 0 {
        assert(es.push(e).drop_first() =~= Seq::<TrustExperience>::empty());
        assert(es.push(e)[0] == e);
        assert(exps_for(Seq::<TrustExperience>::empty(), d, a) == Seq::<TrustExperience>::empty());
        if e.is_for(d, a) {
            assert(seq![e] + Seq::<TrustExperience>::empty() =~= exps_for(es, d, a).push(e));
        }
    } else {
        assert(es.push(e).drop_first() =~= es.drop_first().push(e));
        assert(es.push(e)[0] == es[0]);
        lemma_exps_for_push(es.drop_first(), e, d, a);
        if es[0].is_for(d, a) {
            if e.is_for(d, a) {
                assert(seq![es[0]] + exps_for(es.drop_first(), d, a).push(e) =~= (seq![es[0]]
                    + exps_for(es.drop_first(), d, a)).push(e));
            }
        }
    }
}

proof fn lemma_cached_for_push(
    cs: Seq<CachedTrustScore>,
    c: CachedTrustScore,
    d: Seq<char>,
    a: Seq<char>,
)
    ensures
        cached_for(cs.push(c), d, a) == if c.id_domain@ == d && c.agent_id@ == a {
            cached_for(cs, d, a).push(c)
        } else {
            cached_for(cs, d, a)
        },
    decreases cs.len(),
{
    assert(cs.push(c).len() == cs.len() + 1);
    if cs.len() == 0 {
        assert(cs.push(c).drop_first() =~= Seq::<CachedTrustScore>::empty());
        assert(cs.push(c)[0] == c);
        assert(cached_for(Seq::<CachedTrustScore>::empty(), d, a) == Seq::<CachedTrustScore>::empty());
        if c.id_domain@ == d && c.agent_id@ == a {
            assert(seq![c] + Seq::<CachedTrustScore>::empty() =~= cached_for(cs, d, a).push(c));
        }
    } else {
        assert(cs.push(c).drop_first() =~= cs.drop_first().push(c));
        assert(cs.push(c)[0] == cs[0]);
        lemma_cached_for_push(cs.drop_first(), c, d, a);
        if cs[0].id_domain@ == d && cs[0].agent_id@ == a {
            if c.id_domain@ == d && c.agent_id@ == a {
                assert(seq![cs[0]] + cached_for(cs.drop_first(), d, a).push(c) =~= (seq![cs[0]]
                    + cached_for(cs.drop_first(), d, a)).push(c));
            }
        }
    }
}

fn contains_exp_id(es: &Vec<TrustExperience>, id: &String) -> (r: bool)
    ensures
        r == has_exp_id(es@, id@),
{
    let mut i: usize = 0;
    while i < es.len()
        invariant
            0 <= i <= es@.len(),
            forall|k: int| 0 <= k < i ==> (#[trigger] es@[k]).id@ != id@,
        decreases es@.len() - i,
    {
        if es[i].id == *id {
            return true;
        }
        i += 1;
    }
    false
}

pub(crate) fn agent_volume_of(es: &Vec<TrustExperience>, id_domain: &String, agent_id: &String) -> (r: u64)
    requires
        agent_volume(es@, id_domain@, agent_id@) <= VOL_CAP,
    ensures
        r as int == agent_volume(es@, id_domain@, agent_id@),
{
    let ghost s = es@;
    let ghost d = id_domain@;
    let ghost a = agent_id@;
    let mut vol: u64 = 0;
    let mut j: usize = 0;
    proof {
        assert(s.subrange(0, s.len() as int) =~= s);
        lemma_agent_volume_nonneg(s, d, a);
    }
    while j < es.len()
        invariant
            0 <= j <= s.len(),
            es@ == s,
            d == id_domain@,
            a == agent_id@,
            agent_volume(s, d, a) <= VOL_CAP,
            vol as int + agent_volume(s.subrange(j as int, s.len() as int), d, a) == agent_volume(
                s,
                d,
                a,
            ),
            vol as int <= agent_volume(s, d, a),
        decreases s.len() - j,
    {
        let ghost suffix = s.subrange(j as int, s.len() as int);
        proof {
            assert(suffix.drop_first() =~= s.subrange(j + 1, s.len() as int));
            assert(suffix[0] == s[j as int]);
            lemma_agent_volume_nonneg(s.subrange(j + 1, s.len() as int), d, a);
        }
        let exp = &es[j];
        if exp.id_domain == *id_domain && exp.agent_id == *agent_id {
            vol = vol + exp.invested_volume;
        }
        j += 1;
    }
    proof {
        assert(s.subrange(s.len() as int, s.len() as int) =~= Seq::<TrustExperience>::empty());
    }
    vol
}

fn insert_position(es: &Vec<TrustExperience>, timestamp: i64) -> (p: usize)
    ensures
        0 <= p <= es@.len(),
        forall|k: int| 0 <= k < p ==> (#[trigger] es@[k]).timestamp > timestamp,
        p < es@.len() ==> es@[p as int].timestamp <= timestamp,
{
    let mut p: usize = 0;
    while p < es.len() && es[p].timestamp > timestamp
        invariant
            0 <= p <= es@.len(),
            forall|k: int| 0 <= k < p ==> (#[trigger] es@[k]).timestamp > timestamp,
        decreases es@.len() - p,
    {
        p += 1;
    }
    p
}

/// The durable tables of the node, modeled in memory: experiences, peers
/// and cached peer opinions.
pub struct TrustStore {
    pub experiences: Vec<TrustExperience>,
    pub peers: Vec<Peer>,
    pub cached: Vec<CachedTrustScore>,
}

impl TrustStore {
    pub open spec fn experiences_wf(&self) -> bool {
        &&& forall|i: int|
            0 <= i < self.experiences@.len() ==> (#[trigger] self.experiences@[i]).wf()
        &&& forall|i: int, j: int|
            0 <= i < j < self.experiences@.len() ==> (#[trigger] self.experiences@[i]).id@ != (
            #[trigger] self.experiences@[j]).id@
        &&& sorted_newest_first(self.experiences@)
        &&& forall|d: Seq<char>, a: Seq<char>| #[trigger]
            agent_volume(self.experiences@, d, a) <= VOL_CAP
    }

    pub open spec fn peers_wf(&self) -> bool {
        &&& forall|i: int| 0 <= i < self.peers@.len() ==> (#[trigger] self.peers@[i]).wf()
        &&& forall|i: int, j: int|
            0 <= i < j < self.peers@.len() ==> (#[trigger] self.peers@[i]).peer_id@ != (
            #[trigger] self.peers@[j]).peer_id@
        &&& self.peers@.len() <= MAX_PEERS
    }

    pub open spec fn cached_wf(&self) -> bool {
        &&& forall|i: int| 0 <= i < self.cached@.len() ==> (#[trigger] self.cached@[i]).wf()
        &&& forall|i: int, j: int|
            0 <= i < j < self.cached@.len() ==> !((#[trigger] self.cached@[i]).id_domain@ == (
            #[trigger] self.cached@[j]).id_domain@ && self.cached@[i].agent_id@
                == self.cached@[j].agent_id@ && self.cached@[i].from_peer@
                == self.cached@[j].from_peer@)
    }

    pub open spec fn wf(&self) -> bool {
        self.experiences_wf() && self.peers_wf() && self.cached_wf()
    }

    /// An empty store.
    pub fn new() -> (r: TrustStore)
        ensures
            r.wf(),
            r.experiences@.len() == 0,
            r.peers@.len() == 0,
            r.cached@.len() == 0,
    {
        let r = TrustStore { experiences: Vec::new(), peers: Vec::new(), cached: Vec::new() };
        proof {
            assert forall|d: Seq<char>, a: Seq<char>| #[trigger]
                agent_volume(r.experiences@, d, a) <= VOL_CAP by {
                lemma_agent_volume_nonneg(r.experiences@, d, a);
            }
        }
        r
    }

    /// Inserts an experience. Rejects a malformed record and one whose
    /// volume would push the agent's summed volume past `VOL_CAP` as input
    /// errors, and a duplicate identifier as a conflict; otherwise the
    /// record joins the table, which stays ordered newest-first.
    #[verifier::rlimit(60)]
    pub fn add_experience(&mut self, e: TrustExperience) -> (r: Result<(), TrustError>)
        requires
            old(self).wf(),
        ensures
            final(self).wf(),
            final(self).peers@ == old(self).peers@,
            final(self).cached@ == old(self).cached@,
            !e.wf() ==> r == Err::<(), TrustError>(TrustError::Input) && final(self).experiences@
                == old(self).experiences@,
            e.wf() && has_exp_id(old(self).experiences@, e.id@) ==> r == Err::<(), TrustError>(
                TrustError::Conflict,
            ) && final(self).experiences@ == old(self).experiences@,
            e.wf() && !has_exp_id(old(self).experiences@, e.id@) && agent_volume(
                old(self).experiences@,
                e.id_domain@,
                e.agent_id@,
            ) + e.invested_volume > VOL_CAP ==> r == Err::<(), TrustError>(TrustError::Input)
                && final(self).experiences@ == old(self).experiences@,
            e.wf() && !has_exp_id(old(self).experiences@, e.id@) && agent_volume(
                old(self).experiences@,
                e.id_domain@,
                e.agent_id@,
            ) + e.invested_volume <= VOL_CAP ==> r == Ok::<(), TrustError>(())
                && final(self).experiences@.to_multiset() == old(
                self,
            ).experiences@.to_multiset().insert(e) && final(self).experiences@.len() == old(
                self,
            ).experiences@.len() + 1,
    {
        if !e.is_valid() {
            return Err(TrustError::Input);
        }
        if contains_exp_id(&self.experiences, &e.id) {
            return Err(TrustError::Conflict);
        }
        let vol = agent_volume_of(&self.experiences, &e.id_domain, &e.agent_id);
        if vol > VOL_CAP - e.invested_volume {
            return Err(TrustError::Input);
        }
        let p = insert_position(&self.experiences, e.timestamp);
        let ghost old_es = self.experiences@;
        self.experiences.insert(p, e);
        proof {
            old_es.insert_ensures(p as int, e);
            to_multiset_insert(old_es, p as int, e);
            let new_es = self.experiences@;
            assert forall|d2: Seq<char>, a2: Seq<char>| #[trigger]
                agent_volume(new_es, d2, a2) <= VOL_CAP by {
                lemma_agent_volume_insert(old_es, e, p as int, d2, a2);
                lemma_agent_volume_nonneg(old_es, d2, a2);
                if e.is_for(d2, a2) {
                    assert(agent_volume(old_es, d2, a2) == agent_volume(
                        old_es,
                        e.id_domain@,
                        e.agent_id@,
                    ));
                }
            }
            assert(sorted_newest_first(new_es)) by {
                assert forall|x: int, y: int| 0 <= x < y < new_es.len() implies (
                #[trigger] new_es[x]).timestamp >= (#[trigger] new_es[y]).timestamp by {
                    if y < p {
                        assert(new_es[x] == old_es[x] && new_es[y] == old_es[y]);
                    } else if y == p {
                        assert(new_es[x] == old_es[x] && old_es[x].timestamp > e.timestamp);
                    } else {
                        assert(new_es[y] == old_es[y - 1] && p as int <= y - 1 < old_es.len());
                        assert(old_es[p as int].timestamp <= e.timestamp);
                        if x < p {
                            assert(new_es[x] == old_es[x] && old_es[x].timestamp > e.timestamp);
                            assert(old_es[p as int].timestamp >= old_es[y - 1].timestamp);
                        } else if x == p {
                            assert(old_es[p as int].timestamp >= old_es[y - 1].timestamp);
                        } else {
                            assert(new_es[x] == old_es[x - 1]);
                        }
                    }
                }
            }
            assert forall|x: int, y: int| 0 <= x < y < new_es.len() implies (
            #[trigger] new_es[x]).id@ != (#[trigger] new_es[y]).id@ by {
                if y < p {
                    assert(new_es[x] == old_es[x] && new_es[y] == old_es[y]);
                } else if y == p {
                    assert(new_es[x] == old_es[x]);
                    assert(!has_exp_id(old_es, e.id@));
                } else {
                    assert(new_es[y] == old_es[y - 1]);
                    if x < p {
                        assert(new_es[x] == old_es[x]);
                    } else if x == p {
                        assert(!has_exp_id(old_es, e.id@));
                    } else {
                        assert(new_es[x] == old_es[x - 1]);
                    }
                }
            }
            assert forall|k: int| 0 <= k < new_es.len() implies (#[trigger] new_es[k]).wf() by {
                if k < p {
                    assert(new_es[k] == old_es[k]);
                } else if k > p {
                    assert(new_es[k] == old_es[k - 1]);
                }
            }
        }
        Ok(())
    }

    /// All experiences for the given agent, newest-first.
    pub fn get_experiences(&self, id_domain: &String, agent_id: &String) -> (r: Vec<
        TrustExperience,
    >)
        requires
            self.wf(),
        ensures
            r@ == exps_for(self.experiences@, id_domain@, agent_id@),
    {
        let ghost es = self.experiences@;
        let mut out: Vec<TrustExperience> = Vec::new();
        let mut i: usize = 0;
        proof {
            assert(es.subrange(0, 0) =~= Seq::<TrustExperience>::empty());
        }
        while i < self.experiences.len()
            invariant
                0 <= i <= es.len(),
                self.experiences@ == es,
                forall|k: int| 0 <= k < es.len() ==> (#[trigger] es[k]).wf(),
                out@ == exps_for(es.subrange(0, i as int), id_domain@, agent_id@),
            decreases es.len() - i,
        {
            let exp = &self.experiences[i];
            proof {
                assert(es.subrange(0, i + 1) =~= es.subrange(0, i as int).push(es[i as int]));
                lemma_exps_for_push(es.subrange(0, i as int), es[i as int], id_domain@, agent_id@);
            }
            if exp.id_domain == *id_domain && exp.agent_id == *agent_id {
                let copy = exp.clone();
                assert(copy == es[i as int]);
                out.push(copy);
            }
            i += 1;
        }
        proof {
            assert(es.subrange(0, es.len() as int) =~= es);
        }
        out
    }

    /// Every experience in the store, newest-first.
    pub fn get_all_experiences(&self) -> (r: Vec<TrustExperience>)
        requires
            self.wf(),
        ensures
            r@ == self.experiences@,
    {
        let ghost es = self.experiences@;
        let mut out: Vec<TrustExperience> = Vec::new();
        let mut i: usize = 0;
        while i < self.experiences.len()
            invariant
                0 <= i <= es.len(),
                self.experiences@ == es,
                out@ == es.subrange(0, i as int),
            decreases es.len() - i,
        {
            let copy = self.experiences[i].clone();
            assert(copy == es[i as int]);
            out.push(copy);
            proof {
                assert(es.subrange(0, i + 1) =~= es.subrange(0, i as int).push(es[i as int]));
            }
            i += 1;
        }
        proof {
            assert(es.subrange(0, es.len() as int) =~= es);
        }
        out
    }

    /// Deletes the experience with the given identifier; a no-op when it is
    /// absent. Identifiers are unique, so at most one row goes.
    pub fn remove_experience(&mut self, experience_id: &String) -> (r: Result<(), TrustError>)
        requires
            old(self).wf(),
        ensures
            final(self).wf(),
            final(self).peers@ == old(self).peers@,
            final(self).cached@ == old(self).cached@,
            !has_exp_id(old(self).experiences@, experience_id@) ==> final(self).experiences@ == old(
                self,
            ).experiences@,
            has_exp_id(old(self).experiences@, experience_id@) ==> exists|idx: int|
                0 <= idx < old(self).experiences@.len() && (#[trigger] old(
                    self,
                ).experiences@[idx]).id@ == experience_id@ && final(self).experiences@ == old(
                    self,
                ).experiences@.remove(idx),
            !has_exp_id(final(self).experiences@, experience_id@),
            r == Ok::<(), TrustError>(()),
    {
        let ghost es = self.experiences@;
        let mut i: usize = 0;
        while i < self.experiences.len()
            invariant
                0 <= i <= es.len(),
                self.experiences@ == es,
                es == old(self).experiences@,
                self.peers@ == old(self).peers@,
                self.cached@ == old(self).cached@,
                old(self).wf(),
                forall|k: int| 0 <= k < i ==> (#[trigger] es[k]).id@ != experience_id@,
            decreases es.len() - i,
        {
            if self.experiences[i].id == *experience_id {
                let ghost idx = i as int;
                self.experiences.remove(i);
                proof {
                    es.remove_ensures(idx);
                    let new_es = self.experiences@;
                    assert(new_es == es.remove(idx));
                    assert forall|k: int| 0 <= k < new_es.len() implies (
                    #[trigger] new_es[k]).wf() by {
                        if k < idx {
                            assert(new_es[k] == es[k]);
                        } else {
                            assert(new_es[k] == es[k + 1]);
                        }
                    }
                    assert forall|x: int, y: int| 0 <= x < y < new_es.len() implies (
                    #[trigger] new_es[x]).id@ != (#[trigger] new_es[y]).id@ && (
                    #[trigger] new_es[x]).timestamp >= (#[trigger] new_es[y]).timestamp by {
                        if x < idx {
                            assert(new_es[x] == es[x]);
                        } else {
                            assert(new_es[x] == es[x + 1]);
                        }
                        if y < idx {
                            assert(new_es[y] == es[y]);
                        } else {
                            assert(new_es[y] == es[y + 1]);
                        }
                    }
                    assert forall|k: int| 0 <= k < new_es.len() implies (
                    #[trigger] new_es[k]).id@ != experience_id@ by {
                        if k < idx {
                            assert(new_es[k] == es[k]);
                        } else {
                            assert(new_es[k] == es[k + 1]);
                        }
                    }
                    assert forall|d: Seq<char>, a: Seq<char>| #[trigger]
                        agent_volume(new_es, d, a) <= VOL_CAP by {
                        lemma_agent_volume_remove(es, idx, d, a);
                    }
                }
                return Ok(());
            }
            i += 1;
        }
        Ok(())
    }

    /// Empties the experience table.
    pub fn clear_experiences(&mut self) -> (r: Result<(), TrustError>)
        requires
            old(self).wf(),
        ensures
            final(self).wf(),
            final(self).experiences@.len() == 0,
            final(self).peers@ == old(self).peers@,
            final(self).cached@ == old(self).cached@,
            r == Ok::<(), TrustError>(()),
    {
        self.experiences.clear();
        proof {
            assert forall|d: Seq<char>, a: Seq<char>| #[trigger]
                agent_volume(self.experiences@, d, a) <= VOL_CAP by {
                lemma_agent_volume_nonneg(self.experiences@, d, a);
            }
        }
        Ok(())
    }
}

/// Whether some peer in `ps` carries the handle `id`.
pub open spec fn has_peer_id(ps: Seq<Peer>, id: Seq<char>) -> bool {
    exists|i: int| 0 <= i < ps.len() && (#[trigger] ps[i]).peer_id@ == id
}

/// Whether some cached opinion in `cs` carries the key `(d, a, peer)`.
pub open spec fn has_cached_key(
    cs: Seq<CachedTrustScore>,
    d: Seq<char>,
    a: Seq<char>,
    peer: Seq<char>,
) -> bool {
    exists|i: int|
        0 <= i < cs.len() && (#[trigger] cs[i]).id_domain@ == d && cs[i].agent_id@ == a
            && cs[i].from_peer@ == peer
}

impl TrustStore {
    /// Registers a peer. A malformed entry is an input error, a duplicate
    /// handle a conflict, a full registry a busy error; otherwise the entry
    /// is appended.
    pub fn add_peer(&mut self, peer: Peer) -> (r: Result<(), TrustError>)
        requires
            old(self).wf(),
        ensures
            final(self).wf(),
            final(self).experiences@ == old(self).experiences@,
            final(self).cached@ == old(self).cached@,
            !peer.wf() ==> r == Err::<(), TrustError>(TrustError::Input) && final(self).peers@
                == old(self).peers@,
            peer.wf() && has_peer_id(old(self).peers@, peer.peer_id@) ==> r == Err::<(
            ), TrustError>(TrustError::Conflict) && final(self).peers@ == old(self).peers@,
            peer.wf() && !has_peer_id(old(self).peers@, peer.peer_id@) && old(self).peers@.len()
                >= MAX_PEERS ==> r == Err::<(), TrustError>(TrustError::Busy) && final(self).peers@
                == old(self).peers@,
            peer.wf() && !has_peer_id(old(self).peers@, peer.peer_id@) && old(self).peers@.len()
                < MAX_PEERS ==> r == Ok::<(), TrustError>(()) && final(self).peers@ == old(
                self,
            ).peers@.push(peer),
    {
        if !peer.is_valid() {
            return Err(TrustError::Input);
        }
        let ghost ps = self.peers@;
        let mut i: usize = 0;
        while i < self.peers.len()
            invariant
                0 <= i <= ps.len(),
                self.peers@ == ps,
                ps == old(self).peers@,
                self.experiences@ == old(self).experiences@,
                self.cached@ == old(self).cached@,
                old(self).wf(),
                peer.wf(),
                forall|k: int| 0 <= k < i ==> (#[trigger] ps[k]).peer_id@ != peer.peer_id@,
            decreases ps.len() - i,
        {
            if self.peers[i].peer_id == peer.peer_id {
                return Err(TrustError::Conflict);
            }
            i += 1;
        }
        if self.peers.len() >= MAX_PEERS {
            return Err(TrustError::Busy);
        }
        self.peers.push(peer);
        Ok(())
    }

    /// Every known peer.
    pub fn get_peers(&self) -> (r: Vec<Peer>)
        requires
            self.wf(),
        ensures
            r@ == self.peers@,
    {
        let ghost ps = self.peers@;
        let mut out: Vec<Peer> = Vec::new();
        let mut i: usize = 0;
        while i < self.peers.len()
            invariant
                0 <= i <= ps.len(),
                self.peers@ == ps,
                out@ == ps.subrange(0, i as int),
            decreases ps.len() - i,
        {
            let copy = self.peers[i].clone();
            assert(copy == ps[i as int]);
            out.push(copy);
            proof {
                assert(ps.subrange(0, i + 1) =~= ps.subrange(0, i as int).push(ps[i as int]));
            }
            i += 1;
        }
        proof {
            assert(ps.subrange(0, ps.len() as int) =~= ps);
        }
        out
    }

    /// Sets the recommender quality of the named peer; a no-op when the
    /// handle is unknown. An out-of-range quality is an input error.
    pub fn update_peer_quality(&mut self, peer_id: &String, quality: i64) -> (r: Result<
        (),
        TrustError,
    >)
        requires
            old(self).wf(),
        ensures
            final(self).wf(),
            final(self).experiences@ == old(self).experiences@,
            final(self).cached@ == old(self).cached@,
            final(self).peers@.len() == old(self).peers@.len(),
            !(-(SCALE as i64) <= quality <= SCALE as i64) ==> r == Err::<(), TrustError>(
                TrustError::Input,
            ) && final(self).peers@ == old(self).peers@,
            -(SCALE as i64) <= quality <= SCALE as i64 ==> r == Ok::<(), TrustError>(()) && forall|
                k: int,
            |
                0 <= k < old(self).peers@.len() ==> #[trigger] final(self).peers@[k] == (if old(
                    self,
                ).peers@[k].peer_id@ == peer_id@ {
                    Peer { recommender_quality: quality, ..old(self).peers@[k] }
                } else {
                    old(self).peers@[k]
                }),
    {
        if quality < -(SCALE as i64) || quality > SCALE as i64 {
            return Err(TrustError::Input);
        }
        let ghost ps = old(self).peers@;
        let mut i: usize = 0;
        while i < self.peers.len()
            invariant
                0 <= i <= ps.len(),
                self.peers@.len() == ps.len(),
                ps == old(self).peers@,
                self.experiences@ == old(self).experiences@,
                self.cached@ == old(self).cached@,
                old(self).wf(),
                -(SCALE as i64) <= quality <= SCALE as i64,
                forall|k: int| i <= k < ps.len() ==> #[trigger] self.peers@[k] == ps[k],
                forall|k: int|
                    0 <= k < i ==> #[trigger] self.peers@[k] == (if ps[k].peer_id@ == peer_id@ {
                        Peer { recommender_quality: quality, ..ps[k] }
                    } else {
                        ps[k]
                    }),
            decreases ps.len() - i,
        {
            if self.peers[i].peer_id == *peer_id {
                let name = self.peers[i].name.clone();
                let handle = self.peers[i].peer_id.clone();
                let added_at = self.peers[i].added_at;
                let updated = Peer {
                    peer_id: handle,
                    name,
                    recommender_quality: quality,
                    added_at,
                };
                assert(updated == (Peer { recommender_quality: quality, ..ps[i as int] }));
                self.peers.set(i, updated);
            }
            i += 1;
        }
        proof {
            assert forall|x: int, y: int| 0 <= x < y < self.peers@.len() implies (
            #[trigger] self.peers@[x]).peer_id@ != (#[trigger] self.peers@[y]).peer_id@ by {
                assert(self.peers@[x].peer_id@ == ps[x].peer_id@);
                assert(self.peers@[y].peer_id@ == ps[y].peer_id@);
            }
            assert forall|k: int| 0 <= k < self.peers@.len() implies (
            #[trigger] self.peers@[k]).wf() by {
                assert(ps[k].wf());
            }
        }
        Ok(())
    }

    /// Forgets the named peer; a no-op when the handle is unknown. Cached
    /// opinions from the peer stay; the coordinator ignores them once the
    /// peer is gone.
    pub fn remove_peer(&mut self, peer_id: &String) -> (r: Result<(), TrustError>)
        requires
            old(self).wf(),
        ensures
            final(self).wf(),
            final(self).experiences@ == old(self).experiences@,
            final(self).cached@ == old(self).cached@,
            !has_peer_id(old(self).peers@, peer_id@) ==> final(self).peers@ == old(self).peers@,
            has_peer_id(old(self).peers@, peer_id@) ==> exists|idx: int|
                0 <= idx < old(self).peers@.len() && (#[trigger] old(self).peers@[idx]).peer_id@
                    == peer_id@ && final(self).peers@ == old(self).peers@.remove(idx),
            !has_peer_id(final(self).peers@, peer_id@),
            r == Ok::<(), TrustError>(()),
    {
        let ghost ps = self.peers@;
        let mut i: usize = 0;
        while i < self.peers.len()
            invariant
                0 <= i <= ps.len(),
                self.peers@ == ps,
                ps == old(self).peers@,
                self.experiences@ == old(self).experiences@,
                self.cached@ == old(self).cached@,
                old(self).wf(),
                forall|k: int| 0 <= k < i ==> (#[trigger] ps[k]).peer_id@ != peer_id@,
            decreases ps.len() - i,
        {
            if self.peers[i].peer_id == *peer_id {
                let ghost idx = i as int;
                self.peers.remove(i);
                proof {
                    ps.remove_ensures(idx);
                    let new_ps = self.peers@;
                    assert forall|k: int| 0 <= k < new_ps.len() implies (
                    #[trigger] new_ps[k]).wf() && new_ps[k].peer_id@ != peer_id@ by {
                        if k < idx {
                            assert(new_ps[k] == ps[k]);
                        } else {
                            assert(new_ps[k] == ps[k + 1]);
                        }
                    }
                    assert forall|x: int, y: int| 0 <= x < y < new_ps.len() implies (
                    #[trigger] new_ps[x]).peer_id@ != (#[trigger] new_ps[y]).peer_id@ by {
                        if x < idx {
                            assert(new_ps[x] == ps[x]);
                        } else {
                            assert(new_ps[x] == ps[x + 1]);
                        }
                        if y < idx {
                            assert(new_ps[y] == ps[y]);
                        } else {
                            assert(new_ps[y] == ps[y + 1]);
                        }
                    }
                }
                return Ok(());
            }
            i += 1;
        }
        Ok(())
    }

    /// Empties the peer table.
    pub fn clear_peers(&mut self) -> (r: Result<(), TrustError>)
        requires
            old(self).wf(),
        ensures
            final(self).wf(),
            final(self).peers@.len() == 0,
            final(self).experiences@ == old(self).experiences@,
            final(self).cached@ == old(self).cached@,
            r == Ok::<(), TrustError>(()),
    {
        self.peers.clear();
        Ok(())
    }

    /// Upserts a cached peer opinion: at most one row exists per
    /// `(agent, from_peer)` pair, and a later cache of the same pair
    /// overwrites the earlier one. A malformed row is an input error.
    pub fn cache_trust_score(&mut self, cached: CachedTrustScore) -> (r: Result<(), TrustError>)
        requires
            old(self).wf(),
        ensures
            final(self).wf(),
            final(self).experiences@ == old(self).experiences@,
            final(self).peers@ == old(self).peers@,
            !cached.wf() ==> r == Err::<(), TrustError>(TrustError::Input) && final(self).cached@
                == old(self).cached@,
            cached.wf() && !has_cached_key(
                old(self).cached@,
                cached.id_domain@,
                cached.agent_id@,
                cached.from_peer@,
            ) ==> r == Ok::<(), TrustError>(()) && final(self).cached@ == old(self).cached@.push(
                cached,
            ),
            cached.wf() && has_cached_key(
                old(self).cached@,
                cached.id_domain@,
                cached.agent_id@,
                cached.from_peer@,
            ) ==> r == Ok::<(), TrustError>(()) && exists|idx: int|
                0 <= idx < old(self).cached@.len() && (#[trigger] old(self).cached@[idx]).id_domain@
                    == cached.id_domain@ && old(self).cached@[idx].agent_id@ == cached.agent_id@
                    && old(self).cached@[idx].from_peer@ == cached.from_peer@ && final(self).cached@
                    == old(self).cached@.update(idx, cached),
    {
        if !cached.is_valid() {
            return Err(TrustError::Input);
        }
        let ghost cs = self.cached@;
        let mut i: usize = 0;
        while i < self.cached.len()
            invariant
                0 <= i <= cs.len(),
                self.cached@ == cs,
                cs == old(self).cached@,
                self.experiences@ == old(self).experiences@,
                self.peers@ == old(self).peers@,
                old(self).wf(),
                cached.wf(),
                forall|k: int|
                    0 <= k < i ==> !((#[trigger] cs[k]).id_domain@ == cached.id_domain@
                        && cs[k].agent_id@ == cached.agent_id@ && cs[k].from_peer@
                        == cached.from_peer@),
            decreases cs.len() - i,
        {
            let row = &self.cached[i];
            if row.id_domain == cached.id_domain && row.agent_id == cached.agent_id
                && row.from_peer == cached.from_peer {
                let ghost idx = i as int;
                self.cached.set(i, cached);
                proof {
                    let new_cs = self.cached@;
                    assert(new_cs == cs.update(idx, cached));
                    assert forall|k: int| 0 <= k < new_cs.len() implies (
                    #[trigger] new_cs[k]).wf() by {
                        if k != idx {
                            assert(new_cs[k] == cs[k]);
                        }
                    }
                    assert forall|x: int, y: int| 0 <= x < y < new_cs.len() implies !((
                    #[trigger] new_cs[x]).id_domain@ == (#[trigger] new_cs[y]).id_domain@
                        && new_cs[x].agent_id@ == new_cs[y].agent_id@ && new_cs[x].from_peer@
                        == new_cs[y].from_peer@) by {
                        if x != idx {
                            assert(new_cs[x] == cs[x]);
                        }
                        if y != idx {
                            assert(new_cs[y] == cs[y]);
                        }
                    }
                }
                return Ok(());
            }
            i += 1;
        }
        self.cached.push(cached);
        Ok(())
    }

    /// All cached opinions for the given agent, in table order.
    pub(crate) fn cached_rows_for(&self, id_domain: &String, agent_id: &String) -> (r: Vec<
        CachedTrustScore,
    >)
        requires
            self.wf(),
        ensures
            r@ == cached_for(self.cached@, id_domain@, agent_id@),
    {
        let ghost cs = self.cached@;
        let mut out: Vec<CachedTrustScore> = Vec::new();
        let mut i: usize = 0;
        proof {
            assert(cs.subrange(0, 0) =~= Seq::<CachedTrustScore>::empty());
        }
        while i < self.cached.len()
            invariant
                0 <= i <= cs.len(),
                self.cached@ == cs,
                out@ == cached_for(cs.subrange(0, i as int), id_domain@, agent_id@),
            decreases cs.len() - i,
        {
            let row = &self.cached[i];
            proof {
                assert(cs.subrange(0, i + 1) =~= cs.subrange(0, i as int).push(cs[i as int]));
                lemma_cached_for_push(
                    cs.subrange(0, i as int),
                    cs[i as int],
                    id_domain@,
                    agent_id@,
                );
            }
            if row.id_domain == *id_domain && row.agent_id == *agent_id {
                let copy = row.clone();
                assert(copy == cs[i as int]);
                out.push(copy);
            }
            i += 1;
        }
        proof {
            assert(cs.subrange(0, cs.len() as int) =~= cs);
        }
        out
    }

    /// All cached opinions for the given agent, newest-first by the time
    /// they were cached.
    pub fn get_cached_scores(&self, id_domain: &String, agent_id: &String) -> (r: Vec<
        CachedTrustScore,
    >)
        requires
            self.wf(),
        ensures
            r@ == newest_first(cached_for(self.cached@, id_domain@, agent_id@)),
            r@.to_multiset() == cached_for(self.cached@, id_domain@, agent_id@).to_multiset(),
            forall|i: int, j: int|
                0 <= i < j < r@.len() ==> (#[trigger] r@[i]).cached_at >= (
                #[trigger] r@[j]).cached_at,
    {
        let rows = self.cached_rows_for(id_domain, agent_id);
        let ghost rs = rows@;
        let mut out: Vec<CachedTrustScore> = Vec::new();
        let mut i: usize = 0;
        proof {
            assert(rs.subrange(0, 0) =~= Seq::<CachedTrustScore>::empty());
            assert(out@ =~= newest_first(rs.subrange(0, 0)));
            assert(out@.to_multiset() =~= rs.subrange(0, 0).to_multiset());
        }
        while i < rows.len()
            invariant
                0 <= i <= rs.len(),
                rows@ == rs,
                out@ == newest_first(rs.subrange(0, i as int)),
                out@.to_multiset() == rs.subrange(0, i as int).to_multiset(),
                forall|x: int, y: int|
                    0 <= x < y < out@.len() ==> (#[trigger] out@[x]).cached_at >= (
                    #[trigger] out@[y]).cached_at,
            decreases rs.len() - i,
        {
            let row = rows[i].clone();
            proof {
                assert(rs.subrange(0, i + 1).drop_last() =~= rs.subrange(0, i as int));
                assert(rs.subrange(0, i + 1).last() == rs[i as int]);
                assert(rs.subrange(0, i + 1) =~= rs.subrange(0, i as int).push(rs[i as int]));
            }
            insert_newest_first(&mut out, row);
            proof {
                broadcast use vstd::seq_lib::group_to_multiset_ensures;

                assert(rs.subrange(0, i as int).push(rs[i as int]).to_multiset() == rs.subrange(
                    0,
                    i as int,
                ).to_multiset().insert(rs[i as int]));
            }
            i += 1;
        }
        proof {
            assert(rs.subrange(0, rs.len() as int) =~= rs);
        }
        out
    }
}

/// Where a row belongs in a newest-first list: before the first row that is
/// not newer than it.
pub open spec fn place_newest_first(s: Seq<CachedTrustScore>, c: CachedTrustScore) -> Seq<
    CachedTrustScore,
>
    decreases s.len(),
{
    if s.len() == 0 {
        seq![c]
    } else if s[0].cached_at <= c.cached_at {
        seq![c] + s
    } else {
        seq![s[0]] + place_newest_first(s.drop_first(), c)
    }
}

/// The rows ordered newest-first, by insertion in list order; among rows
/// cached at the same time, the later-listed one comes first.
pub open spec fn newest_first(s: Seq<CachedTrustScore>) -> Seq<CachedTrustScore>
    decreases s.len(),
{
    if s.len() == 0 {
        Seq::empty()
    } else {
        place_newest_first(newest_first(s.drop_last()), s.last())
    }
}

fn insert_newest_first(out: &mut Vec<CachedTrustScore>, c: CachedTrustScore)
    requires
        forall|x: int, y: int|
            0 <= x < y < old(out)@.len() ==> (#[trigger] old(out)@[x]).cached_at >= (
            #[trigger] old(out)@[y]).cached_at,
    ensures
        final(out)@ == place_newest_first(old(out)@, c),
        final(out)@.to_multiset() == old(out)@.to_multiset().insert(c),
        forall|x: int, y: int|
            0 <= x < y < final(out)@.len() ==> (#[trigger] final(out)@[x]).cached_at >= (
            #[trigger] final(out)@[y]).cached_at,
{
    let ghost s = out@;
    let mut p: usize = 0;
    proof {
        assert(s.subrange(0, s.len() as int) =~= s);
    }
    while p < out.len() && out[p].cached_at > c.cached_at
        invariant
            0 <= p <= s.len(),
            out@ == s,
            forall|k: int| 0 <= k < p ==> (#[trigger] s[k]).cached_at > c.cached_at,
            place_newest_first(s, c) == s.subrange(0, p as int) + place_newest_first(
                s.subrange(p as int, s.len() as int),
                c,
            ),
        decreases s.len() - p,
    {
        let ghost suffix = s.subrange(p as int, s.len() as int);
        proof {
            assert(suffix[0] == s[p as int]);
            assert(suffix.drop_first() =~= s.subrange(p + 1, s.len() as int));
            assert(s.subrange(0, p as int) + (seq![s[p as int]] + place_newest_first(
                s.subrange(p + 1, s.len() as int),
                c,
            )) =~= s.subrange(0, p + 1) + place_newest_first(
                s.subrange(p + 1, s.len() as int),
                c,
            ));
        }
        p += 1;
    }
    let ghost pos = p as int;
    proof {
        let suffix = s.subrange(pos, s.len() as int);
        if p == out.len() {
            assert(suffix =~= Seq::<CachedTrustScore>::empty());
            assert(place_newest_first(suffix, c) == seq![c]);
        } else {
            assert(suffix[0] == s[pos]);
            assert(suffix.drop_first() =~= s.subrange(pos + 1, s.len() as int));
            assert(place_newest_first(suffix, c) == seq![c] + suffix);
        }
        assert(place_newest_first(s, c) =~= s.insert(pos, c));
        s.insert_ensures(pos, c);
        vstd::seq_lib::to_multiset_insert(s, pos, c);
    }
    out.insert(p, c);
    proof {
        let t = out@;
        assert(t == s.insert(pos, c));
        assert forall|x: int, y: int| 0 <= x < y < t.len() implies (#[trigger] t[x]).cached_at >= (
        #[trigger] t[y]).cached_at by {
            if y < pos {
                assert(t[x] == s[x] && t[y] == s[y]);
            } else if y == pos {
                assert(t[x] == s[x] && s[x].cached_at > c.cached_at);
            } else {
                assert(t[y] == s[y - 1] && pos <= y - 1 < s.len());
                assert(s[pos].cached_at <= c.cached_at);
                if x < pos {
                    assert(t[x] == s[x] && s[x].cached_at > c.cached_at);
                    assert(s[pos].cached_at >= s[y - 1].cached_at);
                } else if x == pos {
                    assert(s[pos].cached_at >= s[y - 1].cached_at);
                } else {
                    assert(t[x] == s[x - 1]);
                }
            }
        }
    }
}

} // verus!
