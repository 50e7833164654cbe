//! Volume-weighted fusion of trust scores with signed recommender weights.
//!
//! A contribution `(source, score, weight)` enters the fusion with effective
//! volume `v' = v * |w| / SCALE` and effective ROI `r' = r` for `w >= 0`,
//! `r' = 2 * SCALE - r` for `w < 0` (contrarian reflection around
//! break-even). A set of contributions collapses to
//! `(sum r' * v' / sum v', sum v', sum n over contributing entries)`;
//! if `sum v' = 0` the result is the neutral score.
use vstd::prelude::*;
use vstd::arithmetic::div_mod::{lemma_div_is_ordered, lemma_div_multiples_vanish};
use vstd::arithmetic::mul::lemma_mul_inequality;
use vstd::seq_lib::group_to_multiset_ensures;
use crate::types::TrustScore;
use crate::{MAX_CONTRIBS, ROI_CAP, SCALE, VOL_CAP, DP_CAP};

verus! {

/// Where a contribution came from: the node's own ledger, a cached opinion
/// from the named peer, or an aggregated fan-in response.
pub enum Source {
    Local,
    Cached(String),
    Peers,
}

/// One row of a fusion step: a score and the signed weight (micro-units,
/// in `[-SCALE, SCALE]`) it enters with.
pub struct Contribution {
    pub source: Source,
    pub score: TrustScore,
    pub weight: i64,
}

impl Contribution {
    pub open spec fn wf(&self) -> bool {
        self.score.wf() && -(SCALE as i64) <= self.weight <= SCALE as i64
    }
}

impl Clone for Source {
    fn clone(&self) -> (r: Self)
        ensures
            r == *self,
    {
        match self {
            Source::Local => Source::Local,
            Source::Cached(handle) => Source::Cached(handle.clone()),
            Source::Peers => Source::Peers,
        }
    }
}

impl Clone for Contribution {
    fn clone(&self) -> (r: Self)
        ensures
            r == *self,
    {
        Contribution { source: self.source.clone(), score: self.score, weight: self.weight }
    }
}

pub open spec fn abs_of(x: int) -> int {
    if x < 0 {
        -x
    } else {
        x
    }
}

/// Truncating division, the rounding executable code performs: toward zero.
pub open spec fn div_trunc(n: int, d: int) -> int {
    if n >= 0 {
        n / d
    } else {
        -((-n) / d)
    }
}

/// Effective volume of a contribution: its volume scaled by the weight's
/// magnitude.
pub open spec fn eff_volume(c: Contribution) -> int {
    (c.score.total_volume as int) * abs_of(c.weight as int) / (SCALE as int)
}

/// Effective ROI of a contribution: reflected around break-even when the
/// weight is negative.
pub open spec fn eff_roi(c: Contribution) -> int {
    if c.weight < 0 {
        2 * (SCALE as int) - c.score.expected_pv_roi
    } else {
        c.score.expected_pv_roi as int
    }
}

/// The three sums a fusion step takes over its contributions: effective
/// volume, effective-ROI-weighted volume, and data points of the entries
/// with positive effective volume.
pub open spec fn fusion_sums(s: Seq<Contribution>) -> (int, int, int)
    decreases s.len(),
{
    if s.len() == 0 {
        (0, 0, 0)
    } else {
        let rest = fusion_sums(s.drop_first());
        (
            eff_volume(s[0]) + rest.0,
            eff_roi(s[0]) * eff_volume(s[0]) + rest.1,
            (if eff_volume(s[0]) > 0 {
                s[0].score.data_points as int
            } else {
                0
            }) + rest.2,
        )
    }
}

/// What a list of contributions collapses to.
pub open spec fn merged_score(s: Seq<Contribution>) -> TrustScore {
    let sums = fusion_sums(s);
    if sums.0 == 0 {
        TrustScore::neutral()
    } else {
        TrustScore {
            expected_pv_roi: div_trunc(sums.1, sums.0) as i64,
            total_volume: sums.0 as u64,
            data_points: sums.2 as u64,
        }
    }
}

/// A score with its ROI reflected around break-even, as a negative weight
/// would see it.
pub open spec fn reflected(s: TrustScore) -> TrustScore {
    TrustScore {
        expected_pv_roi: (2 * (SCALE as int) - s.expected_pv_roi) as i64,
        total_volume: s.total_volume,
        data_points: s.data_points,
    }
}

proof fn lemma_fusion_sums_push(s: Seq<Contribution>, c: Contribution)
    ensures
        fusion_sums(s.push(c)).0 == fusion_sums(s).0 + eff_volume(c),
        fusion_sums(s.push(c)).1 == fusion_sums(s).1 + eff_roi(c) * eff_volume(c),
        fusion_sums(s.push(c)).2 == fusion_sums(s).2 + if eff_volume(c) > 0 {
            c.score.data_points as int
        } else {
            0
        },
    decreases s.len(),
{
    assert(s.push(c).len() == s.len() + 1);
    if s.len() == 0 {
        assert(s.push(c).drop_first() =~= Seq::<Contribution>::empty());
        assert(s.push(c)[0] == c);
        assert(fusion_sums(Seq::<Contribution>::empty()) == (0int, 0int, 0int));
    } else {
        assert(s.push(c).drop_first() =~= s.drop_first().push(c));
        assert(s.push(c)[0] == s[0]);
        lemma_fusion_sums_push(s.drop_first(), c);
    }
}

proof fn lemma_fusion_sums_remove(s: Seq<Contribution>, i: int)
    requires
        0 <= i < s.len(),
    ensures
        fusion_sums(s.remove(i)).0 == fusion_sums(s).0 - eff_volume(s[i]),
        fusion_sums(s.remove(i)).1 == fusion_sums(s).1 - eff_roi(s[i]) * eff_volume(s[i]),
        fusion_sums(s.remove(i)).2 == fusion_sums(s).2 - if eff_volume(s[i]) > 0 {
            s[i].score.data_points as int
        } else {
            0
        },
    decreases i,
{
    if i == 0 {
        assert(s.remove(0) =~= s.drop_first());
    } else {
        assert(s.remove(i).drop_first() =~= s.drop_first().remove(i - 1));
        assert(s.remove(i)[0] == s[0]);
        lemma_fusion_sums_remove(s.drop_first(), i - 1);
    }
}

proof fn lemma_fusion_sums_permutation(s1: Seq<Contribution>, s2: Seq<Contribution>)
    requires
        s1.to_multiset() == s2.to_multiset(),
    ensures
        fusion_sums(s1) == fusion_sums(s2),
    decreases s1.len(),
{
    broadcast use group_to_multiset_ensures;

    assert(s1.to_multiset().len() == s1.len());
    assert(s2.to_multiset().len() == s2.len());
    if s1.len() == 0 {
        assert(s2.len() == 0);
    } else {
        let x = s1[0];
        assert(s1.contains(x));
        assert(s1.to_multiset().count(x) > 0);
        assert(s2.to_multiset().count(x) > 0);
        assert(s2.contains(x));
        let i = choose|i: int| 0 <= i < s2.len() && s2[i] == x;
        lemma_fusion_sums_remove(s2, i);
        assert(s1.remove(0) =~= s1.drop_first());
        assert(s1.remove(0).to_multiset() == s1.to_multiset().remove(x));
        assert(s2.remove(i).to_multiset() == s2.to_multiset().remove(x));
        lemma_fusion_sums_permutation(s1.drop_first(), s2.remove(i));
    }
}

/// Fusion is order-independent: two contribution lists that hold the same
/// multiset of contributions merge to the same score, exactly.
pub proof fn lemma_merge_order_independent(s1: Seq<Contribution>, s2: Seq<Contribution>)
    requires
        s1.to_multiset() == s2.to_multiset(),
    ensures
        merged_score(s1) == merged_score(s2),
{
    lemma_fusion_sums_permutation(s1, s2);
}

/// The neutral score is an identity for fusion: a contribution that
/// carries it, at any weight, leaves the merged score unchanged.
pub proof fn lemma_neutral_identity(s: Seq<Contribution>, src: Source, w: i64)
    ensures
        merged_score(s.push(Contribution { source: src, score: TrustScore::neutral(), weight: w }))
            == merged_score(s),
{
    let c = Contribution { source: src, score: TrustScore::neutral(), weight: w };
    assert(eff_volume(c) == 0) by {
        assert((0int) * abs_of(c.weight as int) == 0) by (nonlinear_arith);
        assert(0int / (SCALE as int) == 0);
    }
    lemma_fusion_sums_push(s, c);
    assert(eff_roi(c) * eff_volume(c) == 0) by (nonlinear_arith)
        requires
            eff_volume(c) == 0,
    ;
}

/// Signed weight: for any well-formed score `s` and weight `w > 0`, merging
/// `s` at `+w` and merging its reflection around break-even at `-w` agree on
/// the expected PV-ROI (and on the whole merged score).
pub proof fn lemma_signed_weight_reflection(s: TrustScore, w: i64, src1: Source, src2: Source)
    requires
        s.wf(),
        0 < w <= SCALE as i64,
    ensures
        merged_score(seq![Contribution { source: src1, score: s, weight: w }])
            == merged_score(
            seq![Contribution { source: src2, score: reflected(s), weight: (-w) as i64 }],
        ),
{
    let c1 = Contribution { source: src1, score: s, weight: w };
    let c2 = Contribution { source: src2, score: reflected(s), weight: (-w) as i64 };
    let s1 = seq![c1];
    let s2 = seq![c2];
    assert(s1.drop_first() =~= Seq::<Contribution>::empty());
    assert(s2.drop_first() =~= Seq::<Contribution>::empty());
    assert(reflected(s).expected_pv_roi == 2 * (SCALE as int) - s.expected_pv_roi);
    assert(eff_roi(c2) == s.expected_pv_roi);
    assert(abs_of(c2.weight as int) == abs_of(c1.weight as int));
    assert(eff_volume(c2) == eff_volume(c1));
}

/// The contributions a list of weighted scores stands for.
pub open spec fn contribs_of(pairs: Seq<(TrustScore, i64)>) -> Seq<Contribution> {
    pairs.map_values(
        |p: (TrustScore, i64)| Contribution { source: Source::Peers, score: p.0, weight: p.1 },
    )
}

impl TrustScore {
    /// Merges this score (at full weight) with another score entering at the
    /// given signed weight, by volume-weighted averaging.
    pub fn merge_with(&self, other: &TrustScore, other_weight: i64) -> (r: TrustScore)
        requires
            self.wf(),
            other.wf(),
            -(SCALE as i64) <= other_weight <= SCALE as i64,
        ensures
            r == merged_score(
                seq![
                    Contribution { source: Source::Local, score: *self, weight: SCALE as i64 },
                    Contribution { source: Source::Peers, score: *other, weight: other_weight },
                ],
            ),
    {
        let mut contribs: Vec<Contribution> = Vec::new();
        contribs.push(Contribution { source: Source::Local, score: *self, weight: SCALE as i64 });
        contribs.push(Contribution { source: Source::Peers, score: *other, weight: other_weight });
        let r = merge_contributions(&contribs);
        proof {
            assert(contribs@ =~= seq![
                Contribution { source: Source::Local, score: *self, weight: SCALE as i64 },
                Contribution { source: Source::Peers, score: *other, weight: other_weight },
            ]);
        }
        r
    }

    /// Merges a list of `(score, weight)` pairs by volume-weighted averaging
    /// with signed weights.
    pub fn merge_multiple(scores: Vec<(TrustScore, i64)>) -> (r: TrustScore)
        requires
            scores@.len() <= MAX_CONTRIBS,
            forall|i: int| 0 <= i < scores@.len() ==> {
                &&& (#[trigger] scores@[i]).0.wf()
                &&& -(SCALE as i64) <= scores@[i].1 <= SCALE as i64
            },
        ensures
            r == merged_score(contribs_of(scores@)),
    {
        let mut contribs: Vec<Contribution> = Vec::new();
        let mut i: usize = 0;
        while i < scores.len()
            invariant
                0 <= i <= scores@.len(),
                scores@.len() <= MAX_CONTRIBS,
                forall|k: int| 0 <= k < scores@.len() ==> {
                    &&& (#[trigger] scores@[k]).0.wf()
                    &&& -(SCALE as i64) <= scores@[k].1 <= SCALE as i64
                },
                contribs@.len() == i,
                forall|k: int| 0 <= k < i ==> #[trigger] contribs@[k] == contribs_of(scores@)[k],
            decreases scores@.len() - i,
        {
            let (score, weight) = scores[i];
            contribs.push(Contribution { source: Source::Peers, score, weight });
            i += 1;
        }
        proof {
            assert(contribs@ =~= contribs_of(scores@));
        }
        merge_contributions(&contribs)
    }
}

/// Merges a list of contributions by volume-weighted averaging with signed
/// weights: the heart of the trust arithmetic.
pub fn merge_contributions(contribs: &Vec<Contribution>) -> (r: TrustScore)
    requires
        contribs@.len() <= MAX_CONTRIBS,
        forall|i: int| 0 <= i < contribs@.len() ==> (#[trigger] contribs@[i]).wf(),
    ensures
        r == merged_score(contribs@),
        r.total_volume as int == fusion_sums(contribs@).0,
        abs_of(r.expected_pv_roi as int) <= ROI_CAP + 2 * SCALE,
        r.total_volume > 0 ==> r.data_points >= 1,
{
    let ghost s = contribs@;
    let mut d: u64 = 0;
    let mut num: i128 = 0;
    let mut dp: u64 = 0;
    let mut i: usize = 0;
    while i < contribs.len()
        invariant
            0 <= i <= s.len(),
            s.len() <= MAX_CONTRIBS,
            contribs@ == s,
            forall|k: int| 0 <= k < s.len() ==> (#[trigger] s[k]).wf(),
            d as int == fusion_sums(s.subrange(0, i as int)).0,
            d as int <= i * (VOL_CAP as int),
            num as int == fusion_sums(s.subrange(0, i as int)).1,
            -((ROI_CAP + 2 * SCALE) * (d as int)) <= num as int <= (ROI_CAP + 2 * SCALE) * (
            d as int),
            dp as int == fusion_sums(s.subrange(0, i as int)).2,
            dp as int <= i * (DP_CAP as int),
            d > 0 ==> dp >= 1,
        decreases s.len() - i,
    {
        let c = &contribs[i];
        assert(s[i as int].wf());
        let wabs: u64 = if c.weight < 0 {
            (-(c.weight)) as u64
        } else {
            c.weight as u64
        };
        assert(wabs as int == abs_of(c.weight as int));
        assert(wabs <= SCALE);
        proof {
            assert((c.score.total_volume as int) * (wabs as int) <= (VOL_CAP as int) * (
            SCALE as int)) by (nonlinear_arith)
                requires
                    0 <= c.score.total_volume as int <= VOL_CAP as int,
                    0 <= wabs as int <= SCALE as int,
            ;
        }
        let prod: u128 = (c.score.total_volume as u128) * (wabs as u128);
        let ev_wide: u128 = prod / (SCALE as u128);
        proof {
            assert((wabs as int) * (c.score.total_volume as int) == (c.score.total_volume as int)
                * (wabs as int)) by (nonlinear_arith);
            assert((c.score.total_volume as int) * (SCALE as int) == (SCALE as int) * (
            c.score.total_volume as int)) by (nonlinear_arith);
            lemma_mul_inequality(wabs as int, SCALE as int, c.score.total_volume as int);
            lemma_div_is_ordered(
                (c.score.total_volume as int) * (wabs as int),
                (SCALE as int) * (c.score.total_volume as int),
                SCALE as int,
            );
            lemma_div_multiples_vanish(c.score.total_volume as int, SCALE as int);
            assert(ev_wide as int == eff_volume(s[i as int]));
            assert(ev_wide <= c.score.total_volume);
        }
        let ev: u64 = ev_wide as u64;
        let roi_eff: i64 = if c.weight < 0 {
            2 * (SCALE as i64) - c.score.expected_pv_roi
        } else {
            c.score.expected_pv_roi
        };
        assert(roi_eff as int == eff_roi(s[i as int]));
        assert(-(ROI_CAP + 2 * SCALE) <= roi_eff as int <= ROI_CAP + 2 * SCALE);
        proof {
            assert(-((ROI_CAP + 2 * SCALE) * (ev as int)) <= (roi_eff as int) * (ev as int) <= (
            ROI_CAP + 2 * SCALE) * (ev as int)) by (nonlinear_arith)
                requires
                    -(ROI_CAP + 2 * SCALE) <= roi_eff as int <= ROI_CAP + 2 * SCALE,
                    0 <= ev as int,
            ;
            assert((ROI_CAP + 2 * SCALE) * (ev as int) <= (ROI_CAP + 2 * SCALE) * (VOL_CAP as int))
                by (nonlinear_arith)
                requires
                    0 <= ev as int <= VOL_CAP as int,
            ;
        }
        let term: i128 = (roi_eff as i128) * (ev as i128);
        proof {
            assert(s.subrange(0, i + 1) =~= s.subrange(0, i as int).push(s[i as int]));
            lemma_fusion_sums_push(s.subrange(0, i as int), s[i as int]);
            assert(d as int + ev as int <= (i + 1) * (VOL_CAP as int)) by (nonlinear_arith)
                requires
                    d as int <= i * (VOL_CAP as int),
                    ev as int <= VOL_CAP as int,
                    i >= 0,
            ;
            assert((i + 1) * (VOL_CAP as int) <= MAX_CONTRIBS * (VOL_CAP as int))
                by (nonlinear_arith)
                requires
                    0 <= i + 1 <= MAX_CONTRIBS,
            ;
            assert(-((ROI_CAP + 2 * SCALE) * ((d + ev) as int)) <= num as int + term as int <= (
            ROI_CAP + 2 * SCALE) * ((d + ev) as int)) by (nonlinear_arith)
                requires
                    -((ROI_CAP + 2 * SCALE) * (d as int)) <= num as int <= (ROI_CAP + 2 * SCALE) * (
                    d as int),
                    -((ROI_CAP + 2 * SCALE) * (ev as int)) <= term as int <= (ROI_CAP + 2 * SCALE)
                        * (ev as int),
            ;
            assert((ROI_CAP + 2 * SCALE) * ((d + ev) as int) <= (ROI_CAP + 2 * SCALE) * (
            MAX_CONTRIBS * (VOL_CAP as int))) by (nonlinear_arith)
                requires
                    0 <= (d + ev) as int <= MAX_CONTRIBS * (VOL_CAP as int),
            ;
            assert((ROI_CAP + 2 * SCALE) * (MAX_CONTRIBS * (VOL_CAP as int))
                < 170_141_183_460_469_231_731_687_303_715_884_105_728int) by (nonlinear_arith);
        }
        d = d + ev;
        num = num + term;
        if ev > 0 {
            proof {
                assert(dp as int + c.score.data_points as int <= (i + 1) * (DP_CAP as int))
                    by (nonlinear_arith)
                    requires
                        dp as int <= i * (DP_CAP as int),
                        c.score.data_points as int <= DP_CAP as int,
                        i >= 0,
                ;
                assert((i + 1) * (DP_CAP as int) <= MAX_CONTRIBS * (DP_CAP as int))
                    by (nonlinear_arith)
                    requires
                        0 <= i + 1 <= MAX_CONTRIBS,
                ;
                assert(s[i as int].score.total_volume > 0);
                assert(s[i as int].score.data_points >= 1);
            }
            dp = dp + c.score.data_points;
        } else {
            proof {
                assert(dp as int <= (i + 1) * (DP_CAP as int)) by (nonlinear_arith)
                    requires
                        dp as int <= i * (DP_CAP as int),
                        i >= 0,
                ;
            }
        }
        proof {
            assert(d as int <= (i + 1) * (VOL_CAP as int));
        }
        i += 1;
    }
    proof {
        assert(s.subrange(0, s.len() as int) =~= s);
        assert(d as int <= MAX_CONTRIBS * (VOL_CAP as int)) by (nonlinear_arith)
            requires
                d as int <= s.len() * (VOL_CAP as int),
                0 <= s.len() <= MAX_CONTRIBS,
        ;
        assert((ROI_CAP + 2 * SCALE) * (d as int) <= (ROI_CAP + 2 * SCALE) * (MAX_CONTRIBS * (
        VOL_CAP as int))) by (nonlinear_arith)
            requires
                0 <= d as int <= MAX_CONTRIBS * (VOL_CAP as int),
        ;
        assert((ROI_CAP + 2 * SCALE) * (MAX_CONTRIBS * (VOL_CAP as int))
            < 170_141_183_460_469_231_731_687_303_715_884_105_728int) by (nonlinear_arith);
    }
    if d == 0 {
        TrustScore { expected_pv_roi: SCALE as i64, total_volume: 0, data_points: 0 }
    } else {
        let roi: i64 = if num >= 0 {
            proof {
                lemma_div_is_ordered(num as int, (ROI_CAP + 2 * SCALE) * (d as int), d as int);
                lemma_div_multiples_vanish(ROI_CAP + 2 * SCALE, d as int);
                assert((ROI_CAP + 2 * SCALE) * (d as int) == (d as int) * (ROI_CAP + 2 * SCALE))
                    by (nonlinear_arith);
                assert(num as int / d as int <= ROI_CAP + 2 * SCALE);
            }
            ((num as u128) / (d as u128)) as i64
        } else {
            proof {
                lemma_div_is_ordered(-(num as int), (ROI_CAP + 2 * SCALE) * (d as int), d as int);
                lemma_div_multiples_vanish(ROI_CAP + 2 * SCALE, d as int);
                assert((ROI_CAP + 2 * SCALE) * (d as int) == (d as int) * (ROI_CAP + 2 * SCALE))
                    by (nonlinear_arith);
                assert(-(num as int) / d as int <= ROI_CAP + 2 * SCALE);
            }
            -((((-num) as u128) / (d as u128)) as i64)
        };
        assert(roi as int == div_trunc(num as int, d as int));
        TrustScore { expected_pv_roi: roi, total_volume: d, data_points: dp }
    }
}

} // verus!
