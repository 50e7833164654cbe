//! The local score engine: derives a volume-weighted present-value ROI score
//! for one agent from its stored experiences, with linear age decay.
//!
//! For an experience at timestamp `ts`, an evaluation time `t` and a forget
//! rate `phi` (micro-units of decay per year), the aged volume is
//! `v * max(0, SCALE - (|days| * phi / 365)) / SCALE` where
//! `days = |t - ts| / 86400`. Experiences whose aged volume is zero do not
//! contribute.
use vstd::prelude::*;
use vstd::arithmetic::div_mod::{
    lemma_div_is_ordered, lemma_div_multiples_vanish, lemma_fundamental_div_mod,
    lemma_fundamental_div_mod_converse, lemma_mod_bound,
};
use vstd::arithmetic::mul::lemma_mul_inequality;
use crate::score::{abs_of, div_trunc};
use crate::types::{AgentIdentifier, TrustExperience, TrustScore};
use crate::{PHI_CAP, ROI_CAP, SCALE, TS_CAP, VOL_CAP};

verus! {

/// Whole days between two timestamps, rounded toward zero.
pub open spec fn days_between(t: int, ts: int) -> int {
    abs_of(t - ts) / 86400
}

/// The linear decay factor in micro-units: `SCALE` for a fresh experience,
/// zero once `|years| * phi` reaches one.
pub open spec fn age_factor(ts: int, t: int, phi: int) -> int {
    let decay = days_between(t, ts) * phi / 365;
    if decay >= SCALE {
        0
    } else {
        SCALE - decay
    }
}

/// An experience's volume after age decay.
pub open spec fn aged_volume_spec(e: TrustExperience, t: int, phi: int) -> int {
    (e.invested_volume as int) * age_factor(e.timestamp as int, t, phi) / (SCALE as int)
}

/// The three sums the local engine takes over an agent's experiences:
/// aged volume, ROI-weighted aged volume, and the count of experiences
/// whose aged volume is positive.
pub open spec fn local_sums(es: Seq<TrustExperience>, t: int, phi: int) -> (int, int, int)
    decreases es.len(),
{
    if es.len() == 0 {
        (0, 0, 0)
    } else {
        let av = aged_volume_spec(es[0], t, phi);
        let rest = local_sums(es.drop_first(), t, phi);
        (
            av + rest.0,
            (es[0].pv_roi as int) * av + rest.1,
            (if av > 0 {
                1int
            } else {
                0int
            }) + rest.2,
        )
    }
}

/// What the local engine returns for a list of experiences: the neutral
/// score when nothing contributes, else the volume-weighted mean.
pub open spec fn local_score_spec(es: Seq<TrustExperience>, t: int, phi: int) -> TrustScore {
    let sums = local_sums(es, t, phi);
    if sums.0 == 0 {
        TrustScore::neutral()
    } else {
        TrustScore {
            expected_pv_roi: div_trunc(sums.1, sums.0) as i64,
            total_volume: sums.0 as u64,
            data_points: sums.2 as u64,
        }
    }
}

/// Summed invested volume of a list of experiences, before any decay.
pub open spec fn sum_invested(es: Seq<TrustExperience>) -> int
    decreases es.len(),
{
    if es.len() == 0 {
        0
    } else {
        es[0].invested_volume + sum_invested(es.drop_first())
    }
}

/// Summed `pv_roi * invested_volume` of a list of experiences.
pub open spec fn sum_roi_invested(es: Seq<TrustExperience>) -> int
    decreases es.len(),
{
    if es.len() == 0 {
        0
    } else {
        (es[0].pv_roi as int) * (es[0].invested_volume as int) + sum_roi_invested(es.drop_first())
    }
}

impl TrustExperience {
    /// This experience's volume after age decay, in micro-units. Never more
    /// than the invested volume.
    pub fn aged_volume(&self, point_in_time: i64, forget_rate: i64) -> (r: u64)
        requires
            self.wf(),
            0 <= point_in_time <= TS_CAP,
            0 <= forget_rate <= PHI_CAP,
        ensures
            r as int == aged_volume_spec(*self, point_in_time as int, forget_rate as int),
            r <= self.invested_volume,
    {
        let diff: i64 = if point_in_time >= self.timestamp {
            point_in_time - self.timestamp
        } else {
            self.timestamp - point_in_time
        };
        assert(diff as int == abs_of(point_in_time - self.timestamp));
        let days: i64 = diff / 86400;
        proof {
            assert(0 <= days && days as int <= TS_CAP as int);
            assert((days as int) * (forget_rate as int) <= (TS_CAP as int) * (PHI_CAP as int))
                by (nonlinear_arith)
                requires
                    0 <= days as int <= TS_CAP as int,
                    0 <= forget_rate as int <= PHI_CAP as int,
            ;
        }
        let decay_wide: u128 = (days as u128) * (forget_rate as u128) / 365;
        assert(decay_wide as int == days_between(point_in_time as int, self.timestamp as int) * (
        forget_rate as int) / 365);
        let factor: u64 = if decay_wide >= SCALE as u128 {
            0
        } else {
            SCALE - (decay_wide as u64)
        };
        assert(factor as int == age_factor(
            self.timestamp as int,
            point_in_time as int,
            forget_rate as int,
        ));
        proof {
            assert((self.invested_volume as int) * (factor as int) <= (VOL_CAP as int) * (
            SCALE as int)) by (nonlinear_arith)
                requires
                    0 <= self.invested_volume as int <= VOL_CAP as int,
                    0 <= factor as int <= SCALE as int,
            ;
        }
        let prod: u128 = (self.invested_volume as u128) * (factor as u128);
        let aged: u128 = prod / (SCALE as u128);
        proof {
            assert((factor as int) * (self.invested_volume as int) == (self.invested_volume as int)
                * (factor as int)) by (nonlinear_arith);
            assert((self.invested_volume as int) * (SCALE as int) == (SCALE as int) * (
            self.invested_volume as int)) by (nonlinear_arith);
            lemma_mul_inequality(factor as int, SCALE as int, self.invested_volume as int);
            lemma_div_is_ordered(
                (self.invested_volume as int) * (factor as int),
                (SCALE as int) * (self.invested_volume as int),
                SCALE as int,
            );
            lemma_div_multiples_vanish(self.invested_volume as int, SCALE as int);
        }
        aged as u64
    }
}

proof fn lemma_local_sums_push(es: Seq<TrustExperience>, e: TrustExperience, t: int, phi: int)
    ensures
        local_sums(es.push(e), t, phi).0 == local_sums(es, t, phi).0 + aged_volume_spec(e, t, phi),
        local_sums(es.push(e), t, phi).1 == local_sums(es, t, phi).1 + (e.pv_roi as int)
            * aged_volume_spec(e, t, phi),
        local_sums(es.push(e), t, phi).2 == local_sums(es, t, phi).2 + if aged_volume_spec(
            e,
            t,
            phi,
        ) > 0 {
            1int
        } else {
            0int
        },
    decreases es.len(),
{
    assert(es.push(e).len() == es.len() + 1);
    if es.len() == 0 {
        assert(es.push(e).drop_first() =~= Seq::<TrustExperience>::empty());
        assert(es.push(e)[0] == e);
        assert(local_sums(Seq::<TrustExperience>::empty(), t, phi) == (0int, 0int, 0int));
    } else {
        assert(es.push(e).drop_first() =~= es.drop_first().push(e));
        assert(es.push(e)[0] == es[0]);
        lemma_local_sums_push(es.drop_first(), e, t, phi);
    }
}

pub proof fn lemma_sum_invested_nonneg(es: Seq<TrustExperience>)
    ensures
        sum_invested(es) >= 0,
    decreases es.len(),
{
    if es.len() > 0 {
        lemma_sum_invested_nonneg(es.drop_first());
    }
}

proof fn lemma_aged_no_decay(e: TrustExperience, t: int)
    requires
        e.wf(),
    ensures
        aged_volume_spec(e, t, 0) == e.invested_volume as int,
{
    let ts = e.timestamp as int;
    assert(days_between(t, ts) * 0 == 0) by (nonlinear_arith);
    assert(age_factor(ts, t, 0) == SCALE as int);
    assert((e.invested_volume as int) * (SCALE as int) == (SCALE as int) * (
    e.invested_volume as int)) by (nonlinear_arith);
    lemma_div_multiples_vanish(e.invested_volume as int, SCALE as int);
}

/// With a zero forget rate and an evaluation time at or after every
/// experience, the local score is exactly the undecayed volume-weighted
/// mean: ROI `sum(pv_roi * v) / sum(v)`, volume `sum(v)`, one data point per
/// experience; and the neutral score for an empty experience list.
pub proof fn lemma_local_score_no_decay(es: Seq<TrustExperience>, t: int)
    requires
        forall|i: int| 0 <= i < es.len() ==> (#[trigger] es[i]).wf(),
        forall|i: int| 0 <= i < es.len() ==> (#[trigger] es[i]).timestamp <= t,
    ensures
        local_sums(es, t, 0).0 == sum_invested(es),
        local_sums(es, t, 0).1 == sum_roi_invested(es),
        local_sums(es, t, 0).2 == es.len(),
        es.len() == 0 ==> local_score_spec(es, t, 0) == TrustScore::neutral(),
        es.len() > 0 ==> sum_invested(es) > 0 && local_score_spec(es, t, 0) == (TrustScore {
            expected_pv_roi: div_trunc(sum_roi_invested(es), sum_invested(es)) as i64,
            total_volume: sum_invested(es) as u64,
            data_points: es.len() as u64,
        }),
    decreases es.len(),
{
    if es.len() == 0 {
    } else {
        lemma_aged_no_decay(es[0], t);
        assert(forall|i: int|
            0 <= i < es.drop_first().len() ==> #[trigger] es.drop_first()[i] == es[i + 1]);
        lemma_local_score_no_decay(es.drop_first(), t);
        lemma_sum_invested_nonneg(es.drop_first());
    }
}

proof fn lemma_aged_monotone(e: TrustExperience, t1: int, t2: int, phi: int)
    requires
        e.wf(),
        0 <= phi,
        e.timestamp <= t1 <= t2,
    ensures
        aged_volume_spec(e, t2, phi) <= aged_volume_spec(e, t1, phi),
        aged_volume_spec(e, t1, phi) >= 0,
{
    let ts = e.timestamp as int;
    assert(abs_of(t1 - ts) == t1 - ts);
    assert(abs_of(t2 - ts) == t2 - ts);
    lemma_div_is_ordered(t1 - ts, t2 - ts, 86400);
    let days1 = days_between(t1, ts);
    let days2 = days_between(t2, ts);
    assert(days1 >= 0) by {
        lemma_div_is_ordered(0, t1 - ts, 86400);
    }
    lemma_mul_inequality(days1, days2, phi);
    lemma_div_is_ordered(days1 * phi, days2 * phi, 365);
    assert(days1 * phi >= 0) by (nonlinear_arith)
        requires
            days1 >= 0,
            phi >= 0,
    ;
    lemma_div_is_ordered(0, days1 * phi, 365);
    let f1 = age_factor(ts, t1, phi);
    let f2 = age_factor(ts, t2, phi);
    assert(0 <= f2 <= f1 <= SCALE as int);
    let v = e.invested_volume as int;
    lemma_mul_inequality(f2, f1, v);
    assert(f2 * v == v * f2) by (nonlinear_arith);
    assert(f1 * v == v * f1) by (nonlinear_arith);
    lemma_div_is_ordered(v * f2, v * f1, SCALE as int);
    assert(v * f2 >= 0) by (nonlinear_arith)
        requires
            v >= 0,
            f2 >= 0,
    ;
    lemma_div_is_ordered(0, v * f1, SCALE as int);
}

/// With a nonnegative forget rate, the local total volume never grows as
/// the evaluation time moves further past the newest experience: decay is
/// monotone.
pub proof fn lemma_local_volume_monotone(es: Seq<TrustExperience>, t1: int, t2: int, phi: int)
    requires
        forall|i: int| 0 <= i < es.len() ==> (#[trigger] es[i]).wf(),
        forall|i: int| 0 <= i < es.len() ==> (#[trigger] es[i]).timestamp <= t1,
        t1 <= t2,
        0 <= phi,
    ensures
        local_sums(es, t2, phi).0 <= local_sums(es, t1, phi).0,
    decreases es.len(),
{
    if es.len() > 0 {
        lemma_aged_monotone(es[0], t1, t2, phi);
        assert(forall|i: int|
            0 <= i < es.drop_first().len() ==> #[trigger] es.drop_first()[i] == es[i + 1]);
        lemma_local_volume_monotone(es.drop_first(), t1, t2, phi);
    }
}

/// How long after an experience its aged volume is certainly zero, for a
/// positive forget rate: a year's worth of decay, rounded up to whole days.
pub open spec fn vanish_horizon(phi: int) -> int {
    86400 * ((365 * SCALE) / phi + 1)
}

proof fn lemma_aged_vanishes(e: TrustExperience, t: int, phi: int)
    requires
        e.wf(),
        1 <= phi,
        e.timestamp + vanish_horizon(phi) <= t,
    ensures
        aged_volume_spec(e, t, phi) == 0,
{
    let ts = e.timestamp as int;
    let dd = t - ts;
    let big = (365 * SCALE) / phi + 1;
    assert(big >= 1) by {
        lemma_div_is_ordered(0, 365 * SCALE, phi);
    }
    lemma_div_is_ordered(86400 * big, dd, 86400);
    lemma_div_multiples_vanish(big, 86400);
    assert(abs_of(dd) == dd);
    let days = days_between(t, ts);
    assert(days >= big);
    lemma_mul_inequality(big, days, phi);
    // (floor(365 * SCALE / phi) + 1) * phi > 365 * SCALE
    lemma_fundamental_div_mod(365 * (SCALE as int), phi);
    lemma_mod_bound(365 * (SCALE as int), phi);
    assert(big * phi == phi * ((365 * SCALE) / phi) + phi) by (nonlinear_arith)
        requires
            big == (365 * SCALE) / phi + 1,
    ;
    assert(big * phi >= 365 * SCALE + 1);
    lemma_div_is_ordered(365 * (SCALE as int) + 1, days * phi, 365);
    lemma_fundamental_div_mod_converse(365 * (SCALE as int) + 1, 365, SCALE as int, 1);
    assert((365 * (SCALE as int) + 1) / 365 == SCALE as int);
    assert(age_factor(ts, t, phi) == 0);
    assert((e.invested_volume as int) * 0 == 0) by (nonlinear_arith);
    lemma_div_is_ordered(0, 0, SCALE as int);
}

/// With a positive forget rate the local volume reaches zero once the
/// evaluation time is at least `vanish_horizon(phi)` past every experience:
/// together with the monotonicity lemma, the volume falls monotonically to
/// zero as the evaluation time grows.
pub proof fn lemma_local_volume_vanishes(es: Seq<TrustExperience>, t: int, phi: int)
    requires
        forall|i: int| 0 <= i < es.len() ==> (#[trigger] es[i]).wf(),
        forall|i: int|
            0 <= i < es.len() ==> (#[trigger] es[i]).timestamp + vanish_horizon(phi) <= t,
        1 <= phi,
    ensures
        local_sums(es, t, phi).0 == 0,
        local_score_spec(es, t, phi) == TrustScore::neutral(),
    decreases es.len(),
{
    if es.len() > 0 {
        lemma_aged_vanishes(es[0], t, phi);
        assert(forall|i: int|
            0 <= i < es.drop_first().len() ==> #[trigger] es.drop_first()[i] == es[i + 1]);
        lemma_local_volume_vanishes(es.drop_first(), t, phi);
    }
}

/// Computes the local trust score of the given experiences at a point in
/// time with a forget rate, exactly as `local_score_spec` states it. The
/// result is a well-formed score whose volume never exceeds the summed
/// invested volume; it carries at least one data point whenever it carries
/// any volume.
pub fn local_score(experiences: &Vec<TrustExperience>, point_in_time: i64, forget_rate: i64) -> (r:
    TrustScore)
    requires
        forall|i: int| 0 <= i < experiences@.len() ==> (#[trigger] experiences@[i]).wf(),
        sum_invested(experiences@) <= VOL_CAP,
        0 <= point_in_time <= TS_CAP,
        0 <= forget_rate <= PHI_CAP,
    ensures
        r == local_score_spec(experiences@, point_in_time as int, forget_rate as int),
        r.wf(),
        r.total_volume as int <= sum_invested(experiences@),
        r.total_volume as int == local_sums(experiences@, point_in_time as int,
            forget_rate as int).0,
        r.data_points <= experiences@.len(),
{
    let ghost s = experiences@;
    let ghost t = point_in_time as int;
    let ghost phi = forget_rate as int;
    let mut d: u64 = 0;
    let mut num: u128 = 0;
    let mut cnt: u64 = 0;
    let mut i: usize = 0;
    proof {
        assert(s.subrange(0, 0) =~= Seq::<TrustExperience>::empty());
        assert(local_sums(Seq::<TrustExperience>::empty(), t, phi) == (0int, 0int, 0int));
        assert(s.subrange(0, s.len() as int) =~= s);
    }
    while i < experiences.len()
        invariant
            0 <= i <= s.len(),
            experiences@ == s,
            forall|k: int| 0 <= k < s.len() ==> (#[trigger] s[k]).wf(),
            sum_invested(s) <= VOL_CAP,
            0 <= point_in_time <= TS_CAP,
            0 <= forget_rate <= PHI_CAP,
            t == point_in_time as int,
            phi == forget_rate as int,
            d as int == local_sums(s.subrange(0, i as int), t, phi).0,
            d as int + sum_invested(s.subrange(i as int, s.len() as int)) <= sum_invested(s),
            num as int == local_sums(s.subrange(0, i as int), t, phi).1,
            num as int <= (ROI_CAP as int) * (d as int),
            cnt as int == local_sums(s.subrange(0, i as int), t, phi).2,
            cnt <= i,
            cnt as int <= d as int,
            d > 0 ==> cnt >= 1,
        decreases s.len() - i,
    {
        let e = &experiences[i];
        assert(s[i as int].wf());
        let av = e.aged_volume(point_in_time, forget_rate);
        proof {
            assert(s.subrange(i as int, s.len() as int).drop_first() =~= s.subrange(
                i + 1,
                s.len() as int,
            ));
            assert(s.subrange(i as int, s.len() as int)[0] == s[i as int]);
            lemma_sum_invested_nonneg(s.subrange(i + 1, s.len() as int));
            assert(s.subrange(0, i + 1) =~= s.subrange(0, i as int).push(s[i as int]));
            lemma_local_sums_push(s.subrange(0, i as int), s[i as int], t, phi);
            assert((e.pv_roi as int) * (av as int) <= (ROI_CAP as int) * (av as int))
                by (nonlinear_arith)
                requires
                    0 <= e.pv_roi as int <= ROI_CAP as int,
                    0 <= av as int,
            ;
            assert((e.pv_roi as int) * (av as int) >= 0) by (nonlinear_arith)
                requires
                    0 <= e.pv_roi as int,
                    0 <= av as int,
            ;
            assert((ROI_CAP as int) * (d as int) + (ROI_CAP as int) * (av as int) == (
            ROI_CAP as int) * ((d + av) as int)) by (nonlinear_arith);
            assert((ROI_CAP as int) * ((d + av) as int) <= (ROI_CAP as int) * (VOL_CAP as int))
                by (nonlinear_arith)
                requires
                    0 <= (d + av) as int <= VOL_CAP as int,
            ;
        }
        d = d + av;
        num = num + (e.pv_roi as u128) * (av as u128);
        if av > 0 {
            cnt = cnt + 1;
        }
        i += 1;
    }
    proof {
        assert(s.subrange(0, s.len() as int) =~= s);
        assert(s.subrange(s.len() as int, s.len() as int) =~= Seq::<TrustExperience>::empty());
        assert(sum_invested(Seq::<TrustExperience>::empty()) == 0);
    }
    if d == 0 {
        TrustScore { expected_pv_roi: SCALE as i64, total_volume: 0, data_points: 0 }
    } else {
        proof {
            lemma_div_is_ordered(num as int, (ROI_CAP as int) * (d as int), d as int);
            lemma_div_multiples_vanish(ROI_CAP as int, d as int);
            assert((ROI_CAP as int) * (d as int) == (d as int) * (ROI_CAP as int))
                by (nonlinear_arith);
            assert(num as int / d as int <= ROI_CAP);
        }
        let roi: i64 = (num / (d as u128)) as i64;
        assert(roi as int == div_trunc(num as int, d as int));
        TrustScore { expected_pv_roi: roi, total_volume: d, data_points: cnt }
    }
}

/// Every experience the per-agent filter keeps is well-formed and concerns
/// the requested agent, when the whole table is well-formed.
pub proof fn lemma_exps_for_wf(es: Seq<TrustExperience>, d: Seq<char>, a: Seq<char>)
    requires
        forall|i: int| 0 <= i < es.len() ==> (#[trigger] es[i]).wf(),
    ensures
        forall|k: int|
            0 <= k < crate::store::exps_for(es, d, a).len() ==> (#[trigger] crate::store::exps_for(
                es,
                d,
                a,
            )[k]).wf() && crate::store::exps_for(es, d, a)[k].is_for(d, a),
    decreases es.len(),
{
    if es.len() > 0 {
        assert(forall|i: int|
            0 <= i < es.drop_first().len() ==> #[trigger] es.drop_first()[i] == es[i + 1]);
        lemma_exps_for_wf(es.drop_first(), d, a);
        let w = crate::store::exps_for(es, d, a);
        let wt = crate::store::exps_for(es.drop_first(), d, a);
        if es[0].is_for(d, a) {
            assert(w =~= seq![es[0]] + wt);
            assert forall|k: int| 0 <= k < w.len() implies (#[trigger] w[k]).wf() && w[k].is_for(
                d,
                a,
            ) by {
                if k > 0 {
                    assert(w[k] == wt[k - 1]);
                }
            }
        } else {
            assert(w == wt);
            assert forall|k: int| 0 <= k < w.len() implies (#[trigger] w[k]).wf() && w[k].is_for(
                d,
                a,
            ) by {
                assert(wt[k].wf() && wt[k].is_for(d, a));
            }
        }
    }
}

/// The local trust score of one agent, straight from the store: fetches the
/// agent's experiences and collapses them with age decay. An unknown agent
/// yields the neutral score, never an error.
pub fn calculate_trust_score(
    store: &crate::store::TrustStore,
    id_domain: &String,
    agent_id: &String,
    point_in_time: i64,
    forget_rate: i64,
) -> (r: TrustScore)
    requires
        store.wf(),
        0 <= point_in_time <= TS_CAP,
        0 <= forget_rate <= PHI_CAP,
    ensures
        r == local_score_spec(
            crate::store::exps_for(store.experiences@, id_domain@, agent_id@),
            point_in_time as int,
            forget_rate as int,
        ),
        r.wf(),
{
    let experiences = store.get_experiences(id_domain, agent_id);
    proof {
        lemma_exps_for_wf(store.experiences@, id_domain@, agent_id@);
        crate::store::lemma_agent_volume_is_sum(store.experiences@, id_domain@, agent_id@);
        crate::store::lemma_agent_volume_nonneg(store.experiences@, id_domain@, agent_id@);
    }
    local_score(&experiences, point_in_time, forget_rate)
}


/// The distinct agent keys of a list of experiences, one entry per agent,
/// in first-appearance order.
pub open spec fn agent_keys(es: Seq<TrustExperience>) -> Seq<AgentIdentifier>
    decreases es.len(),
{
    if es.len() == 0 {
        Seq::empty()
    } else {
        let rest = agent_keys(es.drop_last());
        let e = es.last();
        if (exists|j: int|
            0 <= j < es.len() - 1 && (#[trigger] es[j]).id_domain@ == e.id_domain@
                && es[j].agent_id@ == e.agent_id@) {
            rest
        } else {
            rest.push(AgentIdentifier { id_domain: e.id_domain, agent_id: e.agent_id })
        }
    }
}

/// Some experience among the first `n` concerns this key.
spec fn key_from_prefix(es: Seq<TrustExperience>, n: int, key: AgentIdentifier) -> bool {
    exists|j: int|
        0 <= j < n && (#[trigger] es[j]).id_domain@ == key.id_domain@ && es[j].agent_id@
            == key.agent_id@
}

/// The result list already holds a row for this key.
spec fn key_listed(out: Seq<(AgentIdentifier, TrustScore)>, d: Seq<char>, a: Seq<char>) -> bool {
    exists|k: int|
        0 <= k < out.len() && (#[trigger] out[k]).0.id_domain@ == d && out[k].0.agent_id@ == a
}

fn scores_have_key(out: &Vec<(AgentIdentifier, TrustScore)>, d: &String, a: &String) -> (r: bool)
    ensures
        r == key_listed(out@, d@, a@),
{
    let mut k: usize = 0;
    while k < out.len()
        invariant
            0 <= k <= out@.len(),
            forall|k2: int|
                0 <= k2 < k ==> !((#[trigger] out@[k2]).0.id_domain@ == d@ && out@[k2].0.agent_id@
                    == a@),
        decreases out@.len() - k,
    {
        if out[k].0.id_domain == *d && out[k].0.agent_id == *a {
            return true;
        }
        k += 1;
    }
    false
}

/// The local trust score of every agent the ledger knows, one entry per
/// distinct agent in first-appearance order, each collapsed with age decay
/// at the given point in time.
#[verifier::rlimit(60)]
pub fn calculate_all_trust_scores(
    store: &crate::store::TrustStore,
    point_in_time: i64,
    forget_rate: i64,
) -> (r: Vec<(AgentIdentifier, TrustScore)>)
    requires
        store.wf(),
        0 <= point_in_time <= TS_CAP,
        0 <= forget_rate <= PHI_CAP,
    ensures
        r@.len() == agent_keys(store.experiences@).len(),
        forall|i: int|
            0 <= i < r@.len() ==> (#[trigger] r@[i]).0 == agent_keys(store.experiences@)[i]
                && r@[i].1 == local_score_spec(
                crate::store::exps_for(
                    store.experiences@,
                    agent_keys(store.experiences@)[i].id_domain@,
                    agent_keys(store.experiences@)[i].agent_id@,
                ),
                point_in_time as int,
                forget_rate as int,
            ),
{
    let ghost es = store.experiences@;
    let mut out: Vec<(AgentIdentifier, TrustScore)> = Vec::new();
    let mut i: usize = 0;
    proof {
        assert(es.subrange(0, 0) =~= Seq::<TrustExperience>::empty());
        assert(out@.len() == agent_keys(es.subrange(0, 0)).len());
    }
    while i < store.experiences.len()
        invariant
            0 <= i <= es.len(),
            store.wf(),
            es == store.experiences@,
            0 <= point_in_time <= TS_CAP,
            0 <= forget_rate <= PHI_CAP,
            out@.len() == agent_keys(es.subrange(0, i as int)).len(),
            forall|k: int|
                0 <= k < out@.len() ==> (#[trigger] out@[k]).0 == agent_keys(
                    es.subrange(0, i as int),
                )[k] && out@[k].1 == local_score_spec(
                    crate::store::exps_for(es, out@[k].0.id_domain@, out@[k].0.agent_id@),
                    point_in_time as int,
                    forget_rate as int,
                ),
            forall|k: int|
                0 <= k < out@.len() ==> key_from_prefix(es, i as int, (#[trigger] out@[k]).0),
            forall|j: int|
                0 <= j < i ==> key_listed(out@, (#[trigger] es[j]).id_domain@, es[j].agent_id@),
        decreases es.len() - i,
    {
        let e = &store.experiences[i];
        let ghost prefix = es.subrange(0, i as int);
        let ghost prefix1 = es.subrange(0, i + 1);
        proof {
            assert(prefix1.drop_last() =~= prefix);
            assert(prefix1.last() == es[i as int]);
            assert(forall|j: int| 0 <= j < i ==> #[trigger] prefix1[j] == es[j]);
        }
        let seen = scores_have_key(&out, &e.id_domain, &e.agent_id);
        if !seen {
            proof {
                assert(!(exists|j: int|
                    0 <= j < i && (#[trigger] es[j]).id_domain@ == es[i as int].id_domain@
                        && es[j].agent_id@ == es[i as int].agent_id@)) by {
                    if exists|j: int|
                        0 <= j < i && (#[trigger] es[j]).id_domain@ == es[i as int].id_domain@
                            && es[j].agent_id@ == es[i as int].agent_id@ {
                        let j = choose|j: int|
                            0 <= j < i && (#[trigger] es[j]).id_domain@ == es[
                                i as int].id_domain@ && es[j].agent_id@ == es[i as int].agent_id@;
                        assert(key_listed(out@, es[j].id_domain@, es[j].agent_id@));
                        assert(key_listed(out@, es[i as int].id_domain@, es[i as int].agent_id@));
                    }
                }
                assert forall|j2: int|
                    0 <= j2 < prefix1.len() - 1 implies !((#[trigger] prefix1[j2]).id_domain@
                    == prefix1.last().id_domain@ && prefix1[j2].agent_id@
                    == prefix1.last().agent_id@) by {
                    assert(prefix1[j2] == es[j2]);
                }
            }
            let key = AgentIdentifier {
                id_domain: e.id_domain.clone(),
                agent_id: e.agent_id.clone(),
            };
            let score = calculate_trust_score(store, &e.id_domain, &e.agent_id, point_in_time,
                forget_rate);
            let ghost old_out = out@;
            out.push((key, score));
            proof {
                assert(out@.last().0 == (AgentIdentifier {
                    id_domain: es[i as int].id_domain,
                    agent_id: es[i as int].agent_id,
                }));
                assert(agent_keys(prefix1) == agent_keys(prefix).push(out@.last().0));
                assert(forall|k2: int| 0 <= k2 < old_out.len() ==> #[trigger] out@[k2] == old_out[k2]);
                assert forall|k2: int| 0 <= k2 < out@.len() implies key_from_prefix(
                    es,
                    i + 1,
                    (#[trigger] out@[k2]).0,
                ) by {
                    if k2 < old_out.len() {
                        assert(key_from_prefix(es, i as int, out@[k2].0));
                        let j = choose|j: int|
                            0 <= j < i && (#[trigger] es[j]).id_domain@ == out@[k2].0.id_domain@
                                && es[j].agent_id@ == out@[k2].0.agent_id@;
                    } else {
                        assert(es[i as int].id_domain@ == out@[k2].0.id_domain@);
                    }
                }
                assert forall|j: int| 0 <= j < i + 1 implies key_listed(
                    out@,
                    (#[trigger] es[j]).id_domain@,
                    es[j].agent_id@,
                ) by {
                    if j < i {
                        assert(key_listed(old_out, es[j].id_domain@, es[j].agent_id@));
                        let k2 = choose|k2: int|
                            0 <= k2 < old_out.len() && (#[trigger] old_out[k2]).0.id_domain@ == es[
                                j].id_domain@ && old_out[k2].0.agent_id@ == es[j].agent_id@;
                        assert(out@[k2] == old_out[k2]);
                    } else {
                        assert(out@[old_out.len() as int].0.id_domain@ == es[j].id_domain@);
                    }
                }
            }
        } else {
            proof {
                assert(key_listed(out@, es[i as int].id_domain@, es[i as int].agent_id@));
                let k2 = choose|k2: int|
                    0 <= k2 < out@.len() && (#[trigger] out@[k2]).0.id_domain@ == es[
                        i as int].id_domain@ && out@[k2].0.agent_id@ == es[i as int].agent_id@;
                assert(key_from_prefix(es, i as int, out@[k2].0));
                let j = choose|j: int|
                    0 <= j < i && (#[trigger] es[j]).id_domain@ == out@[k2].0.id_domain@ && es[
                        j].agent_id@ == out@[k2].0.agent_id@;
                assert(prefix1[j].id_domain@ == prefix1.last().id_domain@ && prefix1[j].agent_id@
                    == prefix1.last().agent_id@);
                assert(exists|j2: int|
                    0 <= j2 < prefix1.len() - 1 && (#[trigger] prefix1[j2]).id_domain@
                        == prefix1.last().id_domain@ && prefix1[j2].agent_id@
                        == prefix1.last().agent_id@);
                assert(agent_keys(prefix1) == agent_keys(prefix));
            }
        }
        i += 1;
    }
    proof {
        assert(es.subrange(0, es.len() as int) =~= es);
    }
    out
}

} // verus!
