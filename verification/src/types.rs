//! The data model: agent identifiers, experiences, trust scores, peers,
//! queries, responses, cached opinions and the export document.
use vstd::prelude::*;
use crate::{DP_CAP, PHI_CAP, ROI_CAP, SCALE, TS_CAP, VOL_CAP};

verus! {

/// A pair `(id_domain, agent_id)` of non-empty strings naming the entity
/// being evaluated. Two identifiers are equal iff both fields are equal.
pub struct AgentIdentifier {
    pub id_domain: String,
    pub agent_id: String,
}

impl AgentIdentifier {
    /// Both components are non-empty.
    pub open spec fn wf(&self) -> bool {
        self.id_domain@.len() > 0 && self.agent_id@.len() > 0
    }

    pub fn new(id_domain: String, agent_id: String) -> (r: AgentIdentifier)
        ensures
            r.id_domain@ == id_domain@,
            r.agent_id@ == agent_id@,
    {
        AgentIdentifier { id_domain, agent_id }
    }

    pub fn is_valid(&self) -> (r: bool)
        ensures
            r == self.wf(),
    {
        let d: &str = &self.id_domain;
        let a: &str = &self.agent_id;
        !d.is_empty() && !a.is_empty()
    }

    pub fn same_key(&self, other: &AgentIdentifier) -> (r: bool)
        ensures
            r == (self.id_domain@ == other.id_domain@ && self.agent_id@ == other.agent_id@),
    {
        self.id_domain == other.id_domain && self.agent_id == other.agent_id
    }
}

impl Clone for AgentIdentifier {
    fn clone(&self) -> (r: Self)
        ensures
            r == *self,
    {
        AgentIdentifier { id_domain: self.id_domain.clone(), agent_id: self.agent_id.clone() }
    }
}

/// A volume-weighted trust score. `expected_pv_roi` is the weighted mean of
/// the underlying PV-ROIs, `total_volume` the aggregate weight behind it,
/// `data_points` the number of underlying experiences. All fixed-point
/// micro-units. The neutral default `(SCALE, 0, 0)` means "no information,
/// assume break-even".
#[derive(Clone, Copy, PartialEq, Eq, Structural, Debug)]
pub struct TrustScore {
    pub expected_pv_roi: i64,
    pub total_volume: u64,
    pub data_points: u64,
}

impl TrustScore {
    /// The bounds every score accepted from storage, from the wire or from
    /// the local engine satisfies: ROI and volume inside the fixed-point
    /// caps, and at least one data point behind any positive volume.
    pub open spec fn wf(&self) -> bool {
        &&& -ROI_CAP <= self.expected_pv_roi <= ROI_CAP
        &&& self.total_volume <= VOL_CAP
        &&& self.data_points <= DP_CAP
        &&& self.total_volume > 0 ==> self.data_points >= 1
    }

    /// The neutral score: break-even, no weight, no data.
    pub open spec fn neutral() -> TrustScore {
        TrustScore { expected_pv_roi: SCALE as i64, total_volume: 0, data_points: 0 }
    }

    pub fn new(expected_pv_roi: i64, total_volume: u64, data_points: u64) -> (r: TrustScore)
        ensures
            r == (TrustScore { expected_pv_roi, total_volume, data_points }),
    {
        TrustScore { expected_pv_roi, total_volume, data_points }
    }

    /// Whether the score carries any information.
    pub fn has_data(&self) -> (r: bool)
        ensures
            r == (self.data_points > 0 && self.total_volume > 0),
    {
        self.data_points > 0 && self.total_volume > 0
    }

    pub fn is_valid(&self) -> (r: bool)
        ensures
            r == self.wf(),
    {
        -ROI_CAP <= self.expected_pv_roi && self.expected_pv_roi <= ROI_CAP
            && self.total_volume <= VOL_CAP && self.data_points <= DP_CAP
            && (self.total_volume == 0 || self.data_points >= 1)
    }
}

impl Default for TrustScore {
    /// The neutral default score.
    fn default() -> (r: TrustScore)
        ensures
            r == TrustScore::neutral(),
    {
        TrustScore { expected_pv_roi: SCALE as i64, total_volume: 0, data_points: 0 }
    }
}

/// A concluded first-hand interaction with an agent.
pub struct TrustExperience {
    /// Stable opaque identifier, unique across the store.
    pub id: String,
    pub id_domain: String,
    pub agent_id: String,
    /// Present-value return-on-investment ratio, micro-units.
    pub pv_roi: i64,
    /// Strictly positive monetary magnitude of the interaction, micro-units.
    pub invested_volume: u64,
    /// Seconds since the epoch at which the interaction concluded.
    pub timestamp: i64,
    pub notes: Option<String>,
    /// Opaque structured payload, passed through unchanged.
    pub data: Option<String>,
}

impl TrustExperience {
    pub open spec fn wf(&self) -> bool {
        &&& self.id_domain@.len() > 0
        &&& self.agent_id@.len() > 0
        &&& 0 <= self.pv_roi <= ROI_CAP
        &&& 0 < self.invested_volume <= VOL_CAP
        &&& 0 <= self.timestamp <= TS_CAP
    }

    /// The experience concerns the given agent key.
    pub open spec fn is_for(&self, id_domain: Seq<char>, agent_id: Seq<char>) -> bool {
        self.id_domain@ == id_domain && self.agent_id@ == agent_id
    }

    pub fn is_valid(&self) -> (r: bool)
        ensures
            r == self.wf(),
    {
        let d: &str = &self.id_domain;
        let a: &str = &self.agent_id;
        !d.is_empty() && !a.is_empty()
            && 0 <= self.pv_roi && self.pv_roi <= ROI_CAP
            && 0 < self.invested_volume && self.invested_volume <= VOL_CAP
            && 0 <= self.timestamp && self.timestamp <= TS_CAP
    }
}

impl Clone for TrustExperience {
    fn clone(&self) -> (r: Self)
        ensures
            r == *self,
    {
        TrustExperience {
            id: self.id.clone(),
            id_domain: self.id_domain.clone(),
            agent_id: self.agent_id.clone(),
            pv_roi: self.pv_roi,
            invested_volume: self.invested_volume,
            timestamp: self.timestamp,
            notes: match &self.notes {
                Some(n) => Some(n.clone()),
                None => None,
            },
            data: match &self.data {
                Some(d) => Some(d.clone()),
                None => None,
            },
        }
    }
}

/// A known peer: an opaque transport handle, a display name, a signed
/// recommender quality in `[-SCALE, SCALE]`, and the time it was added.
pub struct Peer {
    pub peer_id: String,
    pub name: String,
    /// `SCALE` = trust fully, `0` = ignore, `-SCALE` = perfect contrarian.
    pub recommender_quality: i64,
    pub added_at: i64,
}

impl Peer {
    pub open spec fn wf(&self) -> bool {
        &&& self.peer_id@.len() > 0
        &&& -(SCALE as i64) <= self.recommender_quality <= SCALE as i64
        &&& 0 <= self.added_at <= TS_CAP
    }

    pub fn is_valid(&self) -> (r: bool)
        ensures
            r == self.wf(),
    {
        let p: &str = &self.peer_id;
        !p.is_empty()
            && -(SCALE as i64) <= self.recommender_quality
            && self.recommender_quality <= SCALE as i64
            && 0 <= self.added_at && self.added_at <= TS_CAP
    }
}

impl Clone for Peer {
    fn clone(&self) -> (r: Self)
        ensures
            r == *self,
    {
        Peer {
            peer_id: self.peer_id.clone(),
            name: self.name.clone(),
            recommender_quality: self.recommender_quality,
            added_at: self.added_at,
        }
    }
}

/// A trust query: target agents, remaining recursion depth, and an optional
/// pinned evaluation clock and forget rate.
pub struct TrustQuery {
    pub agents: Vec<AgentIdentifier>,
    pub max_depth: u8,
    pub point_in_time: Option<i64>,
    pub forget_rate: Option<i64>,
}

impl TrustQuery {
    pub open spec fn wf(&self) -> bool {
        &&& forall|i: int| 0 <= i < self.agents@.len() ==> (#[trigger] self.agents@[i]).wf()
        &&& match self.point_in_time {
            Some(t) => 0 <= t <= TS_CAP,
            None => true,
        }
        &&& match self.forget_rate {
            Some(phi) => 0 <= phi <= PHI_CAP,
            None => true,
        }
    }

    pub fn is_valid(&self) -> (r: bool)
        ensures
            r == self.wf(),
    {
        let mut i: usize = 0;
        while i < self.agents.len()
            invariant
                0 <= i <= self.agents@.len(),
                forall|j: int| 0 <= j < i ==> (#[trigger] self.agents@[j]).wf(),
            decreases self.agents@.len() - i,
        {
            if !self.agents[i].is_valid() {
                return false;
            }
            i += 1;
        }
        let t_ok = match self.point_in_time {
            Some(t) => 0 <= t && t <= TS_CAP,
            None => true,
        };
        let phi_ok = match self.forget_rate {
            Some(phi) => 0 <= phi && phi <= PHI_CAP,
            None => true,
        };
        t_ok && phi_ok
    }
}

impl Clone for TrustQuery {
    fn clone(&self) -> (r: Self)
        ensures
            r.agents@ == self.agents@,
            r.max_depth == self.max_depth,
            r.point_in_time == self.point_in_time,
            r.forget_rate == self.forget_rate,
    {
        let mut agents: Vec<AgentIdentifier> = Vec::new();
        let mut i: usize = 0;
        while i < self.agents.len()
            invariant
                0 <= i <= self.agents@.len(),
                agents@ == self.agents@.subrange(0, i as int),
            decreases self.agents@.len() - i,
        {
            agents.push(self.agents[i].clone());
            proof {
                assert(agents@ =~= self.agents@.subrange(0, i + 1));
            }
            i += 1;
        }
        proof {
            assert(agents@ =~= self.agents@);
        }
        TrustQuery {
            agents,
            max_depth: self.max_depth,
            point_in_time: self.point_in_time,
            forget_rate: self.forget_rate,
        }
    }
}

/// One agent's merged score inside a response.
pub struct AgentScore {
    pub id_domain: String,
    pub agent_id: String,
    pub score: TrustScore,
}

impl AgentScore {
    pub open spec fn wf(&self) -> bool {
        &&& self.id_domain@.len() > 0
        &&& self.agent_id@.len() > 0
        &&& self.score.wf()
    }

    pub fn new(id_domain: String, agent_id: String, score: TrustScore) -> (r: AgentScore)
        ensures
            r.id_domain@ == id_domain@,
            r.agent_id@ == agent_id@,
            r.score == score,
    {
        AgentScore { id_domain, agent_id, score }
    }
}

impl Clone for AgentScore {
    fn clone(&self) -> (r: Self)
        ensures
            r == *self,
    {
        AgentScore {
            id_domain: self.id_domain.clone(),
            agent_id: self.agent_id.clone(),
            score: self.score,
        }
    }
}

/// The answer to a trust query.
pub struct TrustResponse {
    pub scores: Vec<AgentScore>,
    pub timestamp: i64,
}

impl TrustResponse {
    /// A response fit for fusion: every score inside the fixed-point caps
    /// and no agent listed twice.
    pub open spec fn wf(&self) -> bool {
        &&& forall|i: int| 0 <= i < self.scores@.len() ==> (#[trigger] self.scores@[i]).wf()
        &&& forall|i: int, j: int|
            0 <= i < j < self.scores@.len() ==> !((#[trigger] self.scores@[i]).id_domain@
                == (#[trigger] self.scores@[j]).id_domain@ && self.scores@[i].agent_id@
                == self.scores@[j].agent_id@)
    }
}

/// A peer's opinion about an agent, cached locally with its arrival time.
/// At most one cached opinion exists per `(agent, from_peer)` pair.
pub struct CachedTrustScore {
    pub id_domain: String,
    pub agent_id: String,
    pub score: TrustScore,
    /// The peer the opinion came from.
    pub from_peer: String,
    pub cached_at: i64,
}

impl CachedTrustScore {
    pub open spec fn wf(&self) -> bool {
        &&& self.id_domain@.len() > 0
        &&& self.agent_id@.len() > 0
        &&& self.score.wf()
        &&& self.from_peer@.len() > 0
        &&& 0 <= self.cached_at <= TS_CAP
    }
}

impl CachedTrustScore {
    pub fn is_valid(&self) -> (r: bool)
        ensures
            r == self.wf(),
    {
        let d: &str = &self.id_domain;
        let a: &str = &self.agent_id;
        let p: &str = &self.from_peer;
        !d.is_empty() && !a.is_empty() && self.score.is_valid() && !p.is_empty()
            && 0 <= self.cached_at && self.cached_at <= TS_CAP
    }
}

impl Clone for CachedTrustScore {
    fn clone(&self) -> (r: Self)
        ensures
            r == *self,
    {
        CachedTrustScore {
            id_domain: self.id_domain.clone(),
            agent_id: self.agent_id.clone(),
            score: self.score,
            from_peer: self.from_peer.clone(),
            cached_at: self.cached_at,
        }
    }
}

} // verus!
