use vstd::prelude::*;

use crate::inference::{
    analogy_spec, boundary_spec, conf_le, conf_lt, exclusion_spec, interior_inference,
    interpolation_spec, make,
    opt_seq, opt_view, solitary_reason, text_position, views, Inference, InferenceRule,
    InferenceType, InferenceView,
};
use crate::ratio::Ratio;
use crate::regions::{
    gaps_between, is_maximal_run, is_negative_region_list, lemma_negative_regions_unique, spans, lemma_gaps_between, lemma_region_sizes,
    shares_boundary, AvoidanceMap, Gap, NegativeRegion,
};
use crate::space::TernarySpace;
use crate::ternary::Ternary;

verus! {

/// The inferences of `c` whose confidence is at least `min`, in order.
pub open spec fn keep_confident(c: Seq<InferenceView>, min: (nat, nat)) -> Seq<InferenceView>
    decreases c.len(),
{
    if c.len() == 0 {
        Seq::empty()
    } else {
        let rest = keep_confident(c.drop_last(), min);
        if conf_le(min, c.last().confidence) {
            rest.push(c.last())
        } else {
            rest
        }
    }
}

/// The inferences that the four rules draw from one gap and that reach the threshold:
/// analogy, interpolation, exclusion, then boundary transition.
pub open spec fn gap_candidates(
    regions: Seq<NegativeRegion>,
    s: Seq<Ternary>,
    gap: Gap,
    min: (nat, nat),
) -> Seq<InferenceView> {
    keep_confident(opt_seq(analogy_spec(regions, gap)), min) + keep_confident(
        interpolation_spec(gap),
        min,
    ) + keep_confident(opt_seq(exclusion_spec(s, gap)), min) + keep_confident(
        boundary_spec(regions, gap),
        min,
    )
}

/// The candidates drawn from the first `n` gaps of `gaps`, gap after gap.
pub open spec fn candidates_upto(
    regions: Seq<NegativeRegion>,
    s: Seq<Ternary>,
    gaps: Seq<Gap>,
    min: (nat, nat),
    n: nat,
) -> Seq<InferenceView>
    decreases n,
{
    if n == 0 {
        Seq::empty()
    } else {
        candidates_upto(regions, s, gaps, min, (n - 1) as nat) + gap_candidates(
            regions,
            s,
            gaps[n - 1],
            min,
        )
    }
}

/// All candidates drawn from the gaps between consecutive regions.
pub open spec fn all_candidates(
    regions: Seq<NegativeRegion>,
    s: Seq<Ternary>,
    min: (nat, nat),
) -> Seq<InferenceView> {
    let gaps = gaps_between(regions);
    candidates_upto(regions, s, gaps, min, gaps.len())
}

/// Candidate `k` has the highest confidence among the candidates about its position, and
/// no earlier candidate about that position has the same confidence.
pub open spec fn is_first_best(c: Seq<InferenceView>, k: int) -> bool {
    forall|t: int|
        #![trigger c[t]]
        0 <= t < c.len() && c[t].position == c[k].position ==> conf_le(
            c[t].confidence,
            c[k].confidence,
        ) && (t < k ==> conf_lt(c[t].confidence, c[k].confidence))
}

/// Some candidate of `c` equal to `v` is the first best one about its position.
pub open spec fn selected_from(c: Seq<InferenceView>, v: InferenceView) -> bool {
    exists|k: int| 0 <= k < c.len() && c[k] == v && is_first_best(c, k)
}

/// Some inference of `out` is about position `p`.
pub open spec fn position_listed(out: Seq<InferenceView>, p: int) -> bool {
    exists|i: int| 0 <= i < out.len() && out[i].position == p
}

/// `out` keeps, for each position that some candidate is about, the first candidate of
/// highest confidence about it, ordered by position.
pub open spec fn is_best_selection(c: Seq<InferenceView>, out: Seq<InferenceView>) -> bool {
    &&& forall|i: int, j: int| 0 <= i < j < out.len() ==> out[i].position < out[j].position
    &&& forall|i: int| 0 <= i < out.len() ==> #[trigger] selected_from(c, out[i])
    &&& forall|k: int| 0 <= k < c.len() ==> #[trigger] position_listed(out, c[k].position)
}

/// With fewer than two regions there are no gaps; a single region whose left boundary is
/// unknown has the position just before it predicted avoided (confidence 0.5), where the
/// threshold `min` is at most 0.5.
pub open spec fn solitary_spec(regions: Seq<NegativeRegion>, min: (nat, nat)) -> Seq<InferenceView> {
    if regions.len() == 1 && regions[0].left_boundary == Some(Ternary::Unknown) && regions[0].start
        > 0 && conf_le(min, (5nat, 10nat)) {
        seq![
            make(
                regions[0].start - 1,
                Ternary::Avoided,
                InferenceType::BoundaryTransition,
                (5nat, 10nat),
                solitary_reason((regions[0].start - 1) as nat),
            ),
        ]
    } else {
        Seq::empty()
    }
}

/// What the deduction engine produces from `regions` over the space `s` with threshold `min`.
pub open spec fn infer_outcome(
    regions: Seq<NegativeRegion>,
    s: Seq<Ternary>,
    min: (nat, nat),
    out: Seq<InferenceView>,
) -> bool {
    if regions.len() < 2 {
        out == solitary_spec(regions, min)
    } else {
        is_best_selection(all_candidates(regions, s, min), out)
    }
}

/// The analogy rule for the gap between regions `i` and `i + 1` cannot overflow the sum of
/// the two region sizes.
pub open spec fn analogy_sizes_fit(regions: Seq<NegativeRegion>) -> bool {
    forall|i: int|
        #![trigger regions[i], regions[i + 1]]
        0 <= i < regions.len() - 1 && regions[i].end < regions[i + 1].start && shares_boundary(
            regions[i],
            regions[i + 1],
        ) ==> regions[i].size + regions[i + 1].size <= usize::MAX
}

/// A fraction that is at most `b` and a fraction that exceeds `b` are ordered, when all three
/// have positive denominators.
proof fn lemma_conf_le_lt(a: (nat, nat), b: (nat, nat), c: (nat, nat))
    requires
        conf_le(a, b),
        conf_lt(b, c),
        a.1 > 0,
        b.1 > 0,
        c.1 > 0,
    ensures
        conf_lt(a, c),
{
    assert(a.0 * b.1 * c.1 <= b.0 * a.1 * c.1) by (nonlinear_arith)
        requires
            a.0 * b.1 <= b.0 * a.1,
    ;
    assert(b.0 * c.1 * a.1 < c.0 * b.1 * a.1) by (nonlinear_arith)
        requires
            b.0 * c.1 < c.0 * b.1,
            a.1 > 0,
    ;
    assert(b.0 * a.1 * c.1 == b.0 * c.1 * a.1) by (nonlinear_arith);
    assert(a.0 * c.1 * b.1 < c.0 * a.1 * b.1) by (nonlinear_arith)
        requires
            a.0 * b.1 * c.1 < c.0 * b.1 * a.1,
    ;
    assert(a.0 * c.1 < c.0 * a.1) by (nonlinear_arith)
        requires
            a.0 * c.1 * b.1 < c.0 * a.1 * b.1,
            b.1 > 0,
    ;
}

/// `b` lists the first best candidate among the first `k` candidates for each position
/// they are about, ordered by position.
#[verifier::opaque]
spec fn best_indices(c: Seq<InferenceView>, k: int, b: Seq<usize>) -> bool {
    &&& forall|j: int| 0 <= j < b.len() ==> b[j] < k
    &&& forall|i: int, j: int| 0 <= i < j < b.len() ==> c[b[i] as int].position < c[b[j] as int].position
    &&& forall|j: int| 0 <= j < b.len() ==> best_upto(c, k, b[j] as int)
    &&& forall|t: int| 0 <= t < k ==> #[trigger] index_listed(c, b, c[t].position)
}

/// Some candidate listed in `b` is about position `p`.
spec fn index_listed(c: Seq<InferenceView>, b: Seq<usize>, p: int) -> bool {
    exists|j: int| 0 <= j < b.len() && c[b[j] as int].position == p
}

/// Candidate `m` has the highest confidence among the first `k` candidates about its
/// position, and no earlier one of them has the same confidence.
spec fn best_upto(c: Seq<InferenceView>, k: int, m: int) -> bool {
    forall|t: int|
        #![trigger c[t]]
        0 <= t < k && c[t].position == c[m].position ==> conf_le(c[t].confidence, c[m].confidence)
            && (t < m ==> conf_lt(c[t].confidence, c[m].confidence))
}

proof fn lemma_best_indices_shape(c: Seq<InferenceView>, k: int, b: Seq<usize>)
    requires
        best_indices(c, k, b),
    ensures
        forall|j: int| 0 <= j < b.len() ==> b[j] < k,
        forall|i: int, j: int| 0 <= i < j < b.len() ==> c[b[i] as int].position < c[b[j] as int].position,
{
    reveal(best_indices);
}

proof fn lemma_best_indices_start(c: Seq<InferenceView>)
    ensures
        best_indices(c, 0, Seq::empty()),
{
    reveal(best_indices);
}

/// Candidate `k` is about a position that no listed candidate is about; it goes in at `j`.
proof fn lemma_best_insert(c: Seq<InferenceView>, k: int, b: Seq<usize>, j: int)
    requires
        best_indices(c, k, b),
        0 <= k < c.len(),
        k <= usize::MAX,
        0 <= j <= b.len(),
        forall|i: int| 0 <= i < j ==> c[b[i] as int].position < c[k].position,
        j < b.len() ==> c[b[j] as int].position > c[k].position,
    ensures
        best_indices(c, k + 1, b.insert(j, k as usize)),
{
    reveal(best_indices);
    let p = c[k].position;
    let nb = b.insert(j, k as usize);
    assert forall|i: int| j <= i < b.len() implies c[b[i] as int].position > p by {
        if i > j {
            assert(c[b[j] as int].position < c[b[i] as int].position);
        }
    }
    assert forall|t: int| 0 <= t < k implies c[t].position != p by {
        assert(index_listed(c, b, c[t].position));
        let m = choose|m: int| 0 <= m < b.len() && c[b[m] as int].position == c[t].position;
    }
    assert forall|i: int| 0 <= i < nb.len() implies #[trigger] nb[i] == if i < j {
        b[i]
    } else if i == j {
        k as usize
    } else {
        b[i - 1]
    } by {}
    assert forall|i: int, m: int| 0 <= i < m < nb.len() implies c[nb[i] as int].position
        < c[nb[m] as int].position by {
        if m < j {
        } else if m == j {
        } else if i == j {
        } else if i < j {
        } else {
            assert(c[b[i - 1] as int].position < c[b[m - 1] as int].position);
        }
    }
    assert forall|t: int| 0 <= t < k + 1 implies #[trigger] index_listed(c, nb, c[t].position) by {
        if t < k {
            assert(index_listed(c, b, c[t].position));
            let m = choose|m: int| 0 <= m < b.len() && c[b[m] as int].position == c[t].position;
            if m < j {
                assert(c[nb[m] as int].position == c[t].position);
            } else {
                assert(c[nb[m + 1] as int].position == c[t].position);
            }
        } else {
            assert(c[nb[j] as int].position == c[t].position);
        }
    }
    assert forall|m: int| 0 <= m < nb.len() implies best_upto(c, k + 1, nb[m] as int) by {
        if m < j {
            assert(best_upto(c, k, b[m] as int));
        } else if m > j {
            assert(best_upto(c, k, b[m - 1] as int));
        }
    }
}

/// Candidate `k` exceeds the listed candidate about its position and takes its place.
proof fn lemma_best_replace(c: Seq<InferenceView>, k: int, b: Seq<usize>, j: int)
    requires
        best_indices(c, k, b),
        0 <= k < c.len(),
        k <= usize::MAX,
        0 <= j < b.len(),
        c[b[j] as int].position == c[k].position,
        conf_lt(c[b[j] as int].confidence, c[k].confidence),
        forall|t: int| 0 <= t <= k ==> (#[trigger] c[t]).confidence.1 > 0,
    ensures
        best_indices(c, k + 1, b.update(j, k as usize)),
{
    reveal(best_indices);
    let nb = b.update(j, k as usize);
    let bj = b[j] as int;
    assert(best_upto(c, k, bj));
    assert forall|t: int|
        #![trigger c[t]]
        0 <= t < k + 1 && c[t].position == c[k].position implies conf_le(
            c[t].confidence,
            c[k].confidence,
        ) && (t < k ==> conf_lt(c[t].confidence, c[k].confidence)) by {
        if t < k {
            lemma_conf_le_lt(c[t].confidence, c[bj].confidence, c[k].confidence);
        }
    }
    assert(best_upto(c, k + 1, k));
    assert forall|i: int, m: int| 0 <= i < m < nb.len() implies c[nb[i] as int].position
        < c[nb[m] as int].position by {
        assert(c[b[i] as int].position < c[b[m] as int].position);
    }
    assert forall|t: int| 0 <= t < k + 1 implies #[trigger] index_listed(c, nb, c[t].position) by {
        if t < k {
            assert(index_listed(c, b, c[t].position));
            let m = choose|m: int| 0 <= m < b.len() && c[b[m] as int].position == c[t].position;
            assert(c[nb[m] as int].position == c[t].position);
        } else {
            assert(c[nb[j] as int].position == c[t].position);
        }
    }
    assert forall|m: int| 0 <= m < nb.len() implies best_upto(c, k + 1, nb[m] as int) by {
        if m != j {
            assert(best_upto(c, k, b[m] as int));
            if m < j {
                assert(c[b[m] as int].position < c[b[j] as int].position);
            } else {
                assert(c[b[j] as int].position < c[b[m] as int].position);
            }
        }
    }
}

/// Candidate `k` does not exceed the listed candidate about its position; nothing changes.
proof fn lemma_best_keep(c: Seq<InferenceView>, k: int, b: Seq<usize>, j: int)
    requires
        best_indices(c, k, b),
        0 <= k < c.len(),
        0 <= j < b.len(),
        c[b[j] as int].position == c[k].position,
        !conf_lt(c[b[j] as int].confidence, c[k].confidence),
    ensures
        best_indices(c, k + 1, b),
{
    reveal(best_indices);
    assert forall|t: int| 0 <= t < k + 1 implies #[trigger] index_listed(c, b, c[t].position) by {
        if t == k {
            assert(c[b[j] as int].position == c[t].position);
        }
    }
    assert forall|m: int| 0 <= m < b.len() implies best_upto(c, k + 1, b[m] as int) by {
        assert(best_upto(c, k, b[m] as int));
        if m < j {
            assert(c[b[m] as int].position < c[b[j] as int].position);
        } else if m > j {
            assert(c[b[j] as int].position < c[b[m] as int].position);
        }
    }
}

/// The listed candidates, taken in order, are the best selection.
proof fn lemma_best_selection(c: Seq<InferenceView>, b: Seq<usize>, o: Seq<InferenceView>)
    requires
        best_indices(c, c.len() as int, b),
        o == Seq::new(b.len(), |i: int| c[b[i] as int]),
    ensures
        is_best_selection(c, o),
{
    reveal(best_indices);
    assert forall|i: int| 0 <= i < o.len() implies #[trigger] selected_from(c, o[i]) by {
        let m = b[i] as int;
        assert(best_upto(c, c.len() as int, m));
        assert(c[m] == o[i]);
        assert(is_first_best(c, m));
    }
    assert forall|t: int| 0 <= t < c.len() implies #[trigger] position_listed(o, c[t].position) by {
        assert(index_listed(c, b, c[t].position));
        let m = choose|m: int| 0 <= m < b.len() && c[b[m] as int].position == c[t].position;
        assert(o[m].position == c[t].position);
    }
}

/// For each position that some candidate is about, the first candidate of highest
/// confidence about it, ordered by position.
fn select_best(cands: &Vec<Inference>) -> (out: Vec<Inference>)
    ensures
        is_best_selection(views(cands@), views(out@)),
{
    let ghost c = views(cands@);
    let mut best: Vec<usize> = Vec::new();
    let mut k: usize = 0;
    proof {
        lemma_best_indices_start(c);
    }
    while k < cands.len()
        invariant
            c == views(cands@),
            k <= cands@.len(),
            forall|t: int| 0 <= t < k ==> (#[trigger] c[t]).confidence.1 > 0,
            best_indices(c, k as int, best@),
        decreases cands@.len() - k,
    {
        let p = cands[k].position;
        // Every confidence has a positive denominator; the comparisons below rely on it.
        let den = cands[k].confidence.denominator();
        assert(c[k as int].confidence.1 == den && den > 0);
        proof {
            lemma_best_indices_shape(c, k as int, best@);
        }
        let mut j: usize = 0;
        while j < best.len() && cands[best[j]].position < p
            invariant
                c == views(cands@),
                k < cands@.len(),
                p == c[k as int].position,
                forall|i: int| 0 <= i < best@.len() ==> best@[i] < k,
                j <= best@.len(),
                forall|i: int| 0 <= i < j ==> c[best@[i] as int].position < p,
            decreases best@.len() - j,
        {
            j = j + 1;
        }
        if j < best.len() && cands[best[j]].position == p {
            let bj = best[j];
            if cands[k].confidence.exceeds(&cands[bj].confidence) {
                proof {
                    lemma_best_replace(c, k as int, best@, j as int);
                }
                best.set(j, k);
            } else {
                proof {
                    lemma_best_keep(c, k as int, best@, j as int);
                }
            }
        } else {
            proof {
                lemma_best_insert(c, k as int, best@, j as int);
            }
            best.insert(j, k);
        }
        k = k + 1;
    }
    proof {
        lemma_best_indices_shape(c, cands@.len() as int, best@);
    }
    let mut out: Vec<Inference> = Vec::new();
    let mut j: usize = 0;
    while j < best.len()
        invariant
            c == views(cands@),
            forall|i: int| 0 <= i < best@.len() ==> best@[i] < cands@.len(),
            j <= best@.len(),
            views(out@) == Seq::new(j as nat, |i: int| c[best@[i] as int]),
        decreases best@.len() - j,
    {
        let item = cands[best[j]].duplicate();
        let ghost before = out@;
        out.push(item);
        assert(out@ == before.push(item));
        assert(views(out@) == views(before).push(item@));
        assert(item@ == c[best@[j as int] as int]);
        j = j + 1;
        assert(views(out@) == Seq::new(j as nat, |i: int| c[best@[i] as int]));
    }
    proof {
        assert(views(out@) == Seq::new(best@.len(), |i: int| c[best@[i] as int]));
        lemma_best_selection(c, best@, views(out@));
    }
    out
}


/// Appends to `dst` the inferences of `src` whose confidence is at least `min`, in order.
fn append_confident(dst: &mut Vec<Inference>, src: &Vec<Inference>, min: &Ratio)
    ensures
        views(final(dst)@) == views(old(dst)@) + keep_confident(
            views(src@),
            (min.numer(), min.denom()),
        ),
{
    let ghost d0 = views(dst@);
    let ghost m = (min.numer(), min.denom());
    let ghost sv = views(src@);
    let mut i: usize = 0;
    while i < src.len()
        invariant
            i <= src@.len(),
            sv == views(src@),
            m == (min.numer(), min.denom()),
            views(dst@) == d0 + keep_confident(sv.take(i as int), m),
        decreases src@.len() - i,
    {
        assert(sv.take(i + 1).drop_last() == sv.take(i as int));
        assert(sv.take(i + 1).last() == src@[i as int]@);
        if src[i].confidence.at_least(min) {
            let item = src[i].duplicate();
            let ghost before = dst@;
            dst.push(item);
            assert(views(dst@) == views(before).push(item@));
        }
        i = i + 1;
    }
    assert(sv.take(i as int) == sv);
}

/// Appends `o` to `dst` when it is present and its confidence is at least `min`.
fn append_if_confident(dst: &mut Vec<Inference>, o: Option<Inference>, min: &Ratio)
    ensures
        views(final(dst)@) == views(old(dst)@) + keep_confident(
            opt_seq(opt_view(o)),
            (min.numer(), min.denom()),
        ),
{
    let ghost m = (min.numer(), min.denom());
    match o {
        Some(inf) => {
            let ghost one = opt_seq(opt_view(o));
            assert(one.drop_last() == Seq::<InferenceView>::empty());
            assert(one.last() == inf@);
            assert(keep_confident(Seq::<InferenceView>::empty(), m) == Seq::<InferenceView>::empty());
            if inf.confidence.at_least(min) {
                let ghost before = dst@;
                dst.push(inf);
                assert(views(dst@) == views(before).push(inf@));
            }
        },
        None => {
            assert(views(dst@) == views(dst@) + Seq::<InferenceView>::empty());
        },
    }
}

/// Applies the inference rules to the gaps between avoidance regions and keeps, for each
/// position, the most confident deduction.
pub struct DeductionEngine {
    /// Minimum confidence threshold for deductions.
    pub min_confidence: Ratio,
}

impl DeductionEngine {
    /// Create a new engine with the default threshold 0.3.
    pub fn new() -> (e: DeductionEngine)
        ensures
            e.min_confidence.numer() == 3,
            e.min_confidence.denom() == 10,
    {
        DeductionEngine { min_confidence: Ratio::new(3, 10) }
    }

    /// Create an engine with a custom confidence threshold.
    pub fn with_confidence(min_confidence: Ratio) -> (e: DeductionEngine)
        ensures
            e.min_confidence == min_confidence,
    {
        DeductionEngine { min_confidence }
    }

    /// The threshold as a (numerator, denominator) pair.
    pub open spec fn threshold(&self) -> (nat, nat) {
        (self.min_confidence.numer(), self.min_confidence.denom())
    }

    /// Run all inference rules on the negative regions of an avoidance map.
    pub fn infer_from_map(&self, map: &AvoidanceMap) -> (r: Vec<Inference>)
        ensures
            exists|regions: Seq<NegativeRegion>|
                is_negative_region_list(map@, regions) && infer_outcome(
                    regions,
                    map@,
                    self.threshold(),
                    views(r@),
                ),
    {
        let regions = map.find_negative_regions();
        proof {
            lemma_region_sizes(map@, regions@);
        }
        let r = self.infer(regions.as_slice(), map.space());
        assert(is_negative_region_list(map@, regions@));
        r
    }

    /// Run all inference rules on pre-computed regions over a space.
    ///
    /// With fewer than two regions only the position before a single region with an
    /// unknown left boundary is deduced, where its confidence reaches the threshold.
    /// Otherwise every gap between consecutive regions is analysed by analogy,
    /// interpolation, exclusion and boundary transition, the
    /// deductions below the threshold are dropped, and for each position the most confident
    /// deduction (the first one among equals) is kept, ordered by position.
    pub fn infer(&self, regions: &[NegativeRegion], space: &TernarySpace) -> (r: Vec<Inference>)
        requires
            analogy_sizes_fit(regions@),
        ensures
            infer_outcome(regions@, space@, self.threshold(), views(r@)),
    {
        let mut deductions: Vec<Inference> = Vec::new();
        if regions.len() < 2 {
            if regions.len() == 1 {
                let r = &regions[0];
                if let Some(lb) = r.left_boundary {
                    let confidence = Ratio::new(5, 10);
                    if lb.is_unknown() && r.start > 0 && confidence.at_least(&self.min_confidence) {
                        deductions.push(
                            Inference {
                                position: r.start - 1,
                                predicted: Ternary::Avoided,
                                inference_type: InferenceType::BoundaryTransition,
                                confidence,
                                reason: text_position(
                                    r.start - 1,
                                    " just before solitary avoidance region",
                                ),
                            },
                        );
                    }
                }
            }
            assert(views(deductions@) == solitary_spec(regions@, self.threshold()));
            return deductions;
        }
        let map = AvoidanceMap::from_space(space);
        let gaps = map.find_gaps_between_regions(regions);
        let ghost m = self.threshold();
        assert(regions@.len() <= usize::MAX);
        let mut i: usize = 0;
        while i < gaps.len()
            invariant
                regions@.len() >= 2,
                regions@.len() <= usize::MAX,
                analogy_sizes_fit(regions@),
                gaps@ == gaps_between(regions@),
                m == self.threshold(),
                i <= gaps@.len(),
                views(deductions@) == candidates_upto(regions@, space@, gaps@, m, i as nat),
            decreases gaps@.len() - i,
        {
            proof {
                lemma_gaps_between(regions@);
            }
            let gap = &gaps[i];
            assert(gaps@[i as int] == *gap);
            let ghost before = views(deductions@);
            let a = InferenceRule::analogy(regions, gap);
            append_if_confident(&mut deductions, a, &self.min_confidence);
            let ip = InferenceRule::interpolation(regions, gap);
            append_confident(&mut deductions, &ip, &self.min_confidence);
            let e = InferenceRule::exclusion(space, gap);
            append_if_confident(&mut deductions, e, &self.min_confidence);
            let bt = InferenceRule::boundary_transition(regions, gap);
            append_confident(&mut deductions, &bt, &self.min_confidence);
            assert(views(deductions@) == before + gap_candidates(regions@, space@, *gap, m));
            i = i + 1;
        }
        select_best(&deductions)
    }
}

impl Default for DeductionEngine {
    fn default() -> (e: DeductionEngine)
        ensures
            e.min_confidence.numer() == 3,
            e.min_confidence.denom() == 10,
    {
        DeductionEngine::new()
    }
}


/// `p` lies in the gap between some region of the list and the next one.
pub open spec fn between_regions(regions: Seq<NegativeRegion>, p: int) -> bool {
    exists|i: int|
        #![trigger regions[i], regions[i + 1]]
        0 <= i < regions.len() - 1 && regions[i].end <= p < regions[i + 1].start
}

/// The confidence is a fraction between 0 and 1 with a positive denominator.
pub open spec fn unit_confidence(c: (nat, nat)) -> bool {
    0 < c.1 && c.0 <= c.1
}

/// `x` occurs in `a + b` exactly when it occurs in `a` or in `b`.
proof fn lemma_concat_contains<A>(a: Seq<A>, b: Seq<A>, x: A)
    ensures
        (a + b).contains(x) <==> a.contains(x) || b.contains(x),
{
    if a.contains(x) {
        let i = choose|i: int| 0 <= i < a.len() && a[i] == x;
        assert((a + b)[i] == x);
    }
    if b.contains(x) {
        let i = choose|i: int| 0 <= i < b.len() && b[i] == x;
        assert((a + b)[a.len() + i] == x);
    }
    if (a + b).contains(x) {
        let i = choose|i: int| 0 <= i < (a + b).len() && (a + b)[i] == x;
        if i < a.len() {
            assert(a[i] == x);
        } else {
            assert(b[i - a.len()] == x);
        }
    }
}

/// What holds of every inference of `c` holds of every inference kept from it.
proof fn lemma_keep_preserves(c: Seq<InferenceView>, m: (nat, nat), p: spec_fn(InferenceView) -> bool)
    requires
        forall|i: int| 0 <= i < c.len() ==> p(c[i]),
    ensures
        forall|i: int| 0 <= i < keep_confident(c, m).len() ==> p(keep_confident(c, m)[i]),
    decreases c.len(),
{
    if c.len() > 0 {
        let d = c.drop_last();
        assert forall|i: int| 0 <= i < d.len() implies p(d[i]) by {
            assert(d[i] == c[i]);
        }
        lemma_keep_preserves(d, m, p);
        let kd = keep_confident(d, m);
        let kc = keep_confident(c, m);
        assert(p(c.last()));
        assert forall|i: int| 0 <= i < kc.len() implies p(kc[i]) by {
            if i < kd.len() {
                assert(kc[i] == kd[i]);
            } else {
                assert(kc[i] == c.last());
            }
        }
    }
}

/// An inference kept at a threshold is also kept at any lower threshold.
proof fn lemma_keep_monotone(c: Seq<InferenceView>, lo: (nat, nat), hi: (nat, nat), x: InferenceView)
    requires
        conf_le(lo, hi),
        hi.1 > 0,
        keep_confident(c, hi).contains(x),
    ensures
        keep_confident(c, lo).contains(x),
    decreases c.len(),
{
    if c.len() > 0 {
        let d = c.drop_last();
        let v = c.last();
        vstd::seq_lib::lemma_seq_contains_after_push(keep_confident(d, hi), v, x);
        vstd::seq_lib::lemma_seq_contains_after_push(keep_confident(d, lo), v, x);
        if keep_confident(d, hi).contains(x) {
            lemma_keep_monotone(d, lo, hi, x);
        } else {
            assert(x == v && conf_le(hi, v.confidence));
            lemma_conf_le_trans(lo, hi, v.confidence);
        }
    }
}

proof fn lemma_conf_le_trans(a: (nat, nat), b: (nat, nat), c: (nat, nat))
    requires
        conf_le(a, b),
        conf_le(b, c),
        b.1 > 0,
    ensures
        conf_le(a, c),
{
    assert(a.0 * b.1 * c.1 <= b.0 * a.1 * c.1) by (nonlinear_arith)
        requires
            a.0 * b.1 <= b.0 * a.1,
    ;
    assert(b.0 * c.1 * a.1 <= c.0 * b.1 * a.1) by (nonlinear_arith)
        requires
            b.0 * c.1 <= c.0 * b.1,
    ;
    assert(b.0 * a.1 * c.1 == b.0 * c.1 * a.1) by (nonlinear_arith);
    assert(a.0 * c.1 * b.1 <= c.0 * a.1 * b.1) by (nonlinear_arith)
        requires
            a.0 * b.1 * c.1 <= c.0 * b.1 * a.1,
    ;
    assert(a.0 * c.1 <= c.0 * a.1) by (nonlinear_arith)
        requires
            a.0 * c.1 * b.1 <= c.0 * a.1 * b.1,
            b.1 > 0,
    ;
}

/// A candidate drawn from a gap at a threshold is also drawn from it at any lower threshold.
proof fn lemma_gap_candidates_monotone(
    regions: Seq<NegativeRegion>,
    s: Seq<Ternary>,
    gap: Gap,
    lo: (nat, nat),
    hi: (nat, nat),
    x: InferenceView,
)
    requires
        conf_le(lo, hi),
        hi.1 > 0,
        gap_candidates(regions, s, gap, hi).contains(x),
    ensures
        gap_candidates(regions, s, gap, lo).contains(x),
{
    let a = opt_seq(analogy_spec(regions, gap));
    let b = interpolation_spec(gap);
    let e = opt_seq(exclusion_spec(s, gap));
    let t = boundary_spec(regions, gap);
    let h1 = keep_confident(a, hi);
    let h2 = keep_confident(b, hi);
    let h3 = keep_confident(e, hi);
    let h4 = keep_confident(t, hi);
    let l1 = keep_confident(a, lo);
    let l2 = keep_confident(b, lo);
    let l3 = keep_confident(e, lo);
    let l4 = keep_confident(t, lo);
    lemma_concat_contains(h1 + h2 + h3, h4, x);
    lemma_concat_contains(h1 + h2, h3, x);
    lemma_concat_contains(h1, h2, x);
    lemma_concat_contains(l1 + l2 + l3, l4, x);
    lemma_concat_contains(l1 + l2, l3, x);
    lemma_concat_contains(l1, l2, x);
    if h1.contains(x) {
        lemma_keep_monotone(a, lo, hi, x);
    } else if h2.contains(x) {
        lemma_keep_monotone(b, lo, hi, x);
    } else if h3.contains(x) {
        lemma_keep_monotone(e, lo, hi, x);
    } else {
        lemma_keep_monotone(t, lo, hi, x);
    }
}

/// A candidate drawn from the first `n` gaps at a threshold is also drawn from them at any
/// lower threshold.
proof fn lemma_candidates_monotone(
    regions: Seq<NegativeRegion>,
    s: Seq<Ternary>,
    gaps: Seq<Gap>,
    lo: (nat, nat),
    hi: (nat, nat),
    n: nat,
    x: InferenceView,
)
    requires
        conf_le(lo, hi),
        hi.1 > 0,
        candidates_upto(regions, s, gaps, hi, n).contains(x),
    ensures
        candidates_upto(regions, s, gaps, lo, n).contains(x),
    decreases n,
{
    if n > 0 {
        let k = (n - 1) as nat;
        lemma_concat_contains(candidates_upto(regions, s, gaps, hi, k), gap_candidates(regions, s, gaps[k as int], hi), x);
        lemma_concat_contains(candidates_upto(regions, s, gaps, lo, k), gap_candidates(regions, s, gaps[k as int], lo), x);
        if candidates_upto(regions, s, gaps, hi, k).contains(x) {
            lemma_candidates_monotone(regions, s, gaps, lo, hi, k, x);
        } else {
            lemma_gap_candidates_monotone(regions, s, gaps[k as int], lo, hi, x);
        }
    }
}

/// The positions of a list of inferences.
pub open spec fn positions(out: Seq<InferenceView>) -> Seq<int> {
    out.map_values(|v: InferenceView| v.position)
}

/// The number of deductions selected from candidates is the number of distinct positions
/// among the candidates, and a selection's positions are those of the candidates.
proof fn lemma_selection_positions(c: Seq<InferenceView>, out: Seq<InferenceView>)
    requires
        is_best_selection(c, out),
    ensures
        positions(out).to_set().len() == out.len(),
        forall|p: int| positions(out).to_set().contains(p) <==> exists|k: int| 0 <= k < c.len() && c[k].position == p,
{
    let ps = positions(out);
    assert forall|i: int, j: int| 0 <= i < ps.len() && 0 <= j < ps.len() && i != j implies ps[i] != ps[j] by {
        if i < j {
            assert(out[i].position < out[j].position);
        } else {
            assert(out[j].position < out[i].position);
        }
    }
    assert(ps.no_duplicates());
    ps.unique_seq_to_set();
    assert forall|p: int| ps.to_set().contains(p) <==> exists|k: int| 0 <= k < c.len() && c[k].position == p by {
        if ps.to_set().contains(p) {
            assert(ps.contains(p));
            let i = choose|i: int| 0 <= i < ps.len() && ps[i] == p;
            assert(selected_from(c, out[i]));
            let k = choose|k: int| 0 <= k < c.len() && c[k] == out[i] && is_first_best(c, k);
            assert(c[k].position == p);
        }
        if exists|k: int| 0 <= k < c.len() && c[k].position == p {
            let k = choose|k: int| 0 <= k < c.len() && c[k].position == p;
            assert(position_listed(out, c[k].position));
            let i = choose|i: int| 0 <= i < out.len() && out[i].position == c[k].position;
            assert(ps[i] == p);
            assert(ps.contains(p));
        }
    }
}

/// Lowering the confidence threshold never loses a deduced position: every position deduced
/// at the higher threshold is also deduced at the lower one, so there are at least as many
/// deductions.
pub proof fn lemma_lower_threshold_more_deductions(
    regions: Seq<NegativeRegion>,
    s: Seq<Ternary>,
    lo: (nat, nat),
    hi: (nat, nat),
    out_lo: Seq<InferenceView>,
    out_hi: Seq<InferenceView>,
)
    requires
        conf_le(lo, hi),
        hi.1 > 0,
        infer_outcome(regions, s, lo, out_lo),
        infer_outcome(regions, s, hi, out_hi),
    ensures
        forall|i: int| 0 <= i < out_hi.len() ==> #[trigger] position_listed(out_lo, out_hi[i].position),
        out_hi.len() <= out_lo.len(),
{
    if regions.len() >= 2 {
        let c_lo = all_candidates(regions, s, lo);
        let c_hi = all_candidates(regions, s, hi);
        let gaps = gaps_between(regions);
        lemma_selection_positions(c_lo, out_lo);
        lemma_selection_positions(c_hi, out_hi);
        let set_lo = positions(out_lo).to_set();
        let set_hi = positions(out_hi).to_set();
        assert forall|p: int| set_hi.contains(p) implies set_lo.contains(p) by {
            let k = choose|k: int| 0 <= k < c_hi.len() && c_hi[k].position == p;
            assert(c_hi.contains(c_hi[k]));
            lemma_candidates_monotone(regions, s, gaps, lo, hi, gaps.len(), c_hi[k]);
            let k2 = choose|k2: int| 0 <= k2 < c_lo.len() && c_lo[k2] == c_hi[k];
            assert(c_lo[k2].position == p);
        }
        vstd::seq_lib::seq_to_set_is_finite(positions(out_lo));
        vstd::set_lib::lemma_len_subset(set_hi, set_lo);
        assert forall|i: int| 0 <= i < out_hi.len() implies #[trigger] position_listed(
            out_lo,
            out_hi[i].position,
        ) by {
            let p = out_hi[i].position;
            assert(positions(out_hi)[i] == p);
            assert(positions(out_hi).contains(p));
            assert(set_lo.contains(p));
            assert(positions(out_lo).contains(p));
            let j = choose|j: int| 0 <= j < positions(out_lo).len() && positions(out_lo)[j] == p;
            assert(out_lo[j].position == p);
        }
    } else if out_hi.len() > 0 {
        lemma_conf_le_trans(lo, hi, (5nat, 10nat));
        assert(out_lo == out_hi);
        assert forall|i: int| 0 <= i < out_hi.len() implies #[trigger] position_listed(
            out_lo,
            out_hi[i].position,
        ) by {
            assert(out_lo[i].position == out_hi[i].position);
        }
    }
}

/// Lowering the threshold of an engine run on an avoidance map never loses a deduced
/// position.
pub proof fn lemma_lower_threshold_map(
    s: Seq<Ternary>,
    regions_lo: Seq<NegativeRegion>,
    regions_hi: Seq<NegativeRegion>,
    lo: (nat, nat),
    hi: (nat, nat),
    out_lo: Seq<InferenceView>,
    out_hi: Seq<InferenceView>,
)
    requires
        conf_le(lo, hi),
        hi.1 > 0,
        is_negative_region_list(s, regions_lo),
        is_negative_region_list(s, regions_hi),
        infer_outcome(regions_lo, s, lo, out_lo),
        infer_outcome(regions_hi, s, hi, out_hi),
    ensures
        forall|i: int| 0 <= i < out_hi.len() ==> #[trigger] position_listed(out_lo, out_hi[i].position),
        out_hi.len() <= out_lo.len(),
{
    lemma_negative_regions_unique(s, regions_lo, regions_hi);
    lemma_lower_threshold_more_deductions(regions_lo, s, lo, hi, out_lo, out_hi);
}

/// What holds of every element of two sequences holds of every element of their concatenation.
proof fn lemma_concat_preserves(a: Seq<InferenceView>, b: Seq<InferenceView>, p: spec_fn(InferenceView) -> bool)
    requires
        forall|i: int| 0 <= i < a.len() ==> p(a[i]),
        forall|i: int| 0 <= i < b.len() ==> p(b[i]),
    ensures
        forall|i: int| 0 <= i < (a + b).len() ==> p((a + b)[i]),
{
    assert forall|i: int| 0 <= i < (a + b).len() implies p((a + b)[i]) by {
        if i < a.len() {
            assert((a + b)[i] == a[i]);
        } else {
            assert((a + b)[i] == b[i - a.len()]);
        }
    }
}

/// The inferences that the rules draw from a non-empty gap are about positions of the gap
/// and have confidences between 0 and 1.
proof fn lemma_gap_candidates_sound(regions: Seq<NegativeRegion>, s: Seq<Ternary>, gap: Gap, m: (nat, nat))
    requires
        gap.left_region < regions.len(),
        gap.right_region < regions.len(),
        gap.start < gap.end,
    ensures
        forall|i: int|
            #![trigger gap_candidates(regions, s, gap, m)[i]]
            0 <= i < gap_candidates(regions, s, gap, m).len() ==> {
                let v = gap_candidates(regions, s, gap, m)[i];
                gap.start <= v.position < gap.end && unit_confidence(v.confidence)
            },
{
    let p = |v: InferenceView| gap.start <= v.position < gap.end && unit_confidence(v.confidence);
    let a = opt_seq(analogy_spec(regions, gap));
    let b = interpolation_spec(gap);
    let e = opt_seq(exclusion_spec(s, gap));
    let t = boundary_spec(regions, gap);
    let g = gap.end - gap.start;
    assert(g / 2 < g);
    assert(forall|i: int| 0 <= i < a.len() ==> p(a[i]));
    assert forall|i: int| 0 <= i < b.len() implies p(b[i]) by {
        if g >= 4 && i >= 2 {
            let k = i - 2;
            assert(b[i] == interior_inference(gap, gap.start + 1 + k));
        }
    }
    assert(forall|i: int| 0 <= i < e.len() ==> p(e[i]));
    assert(forall|i: int| 0 <= i < t.len() ==> p(t[i]));
    lemma_keep_preserves(a, m, p);
    lemma_keep_preserves(b, m, p);
    lemma_keep_preserves(e, m, p);
    lemma_keep_preserves(t, m, p);
    lemma_concat_preserves(keep_confident(a, m), keep_confident(b, m), p);
    lemma_concat_preserves(keep_confident(a, m) + keep_confident(b, m), keep_confident(e, m), p);
    lemma_concat_preserves(
        keep_confident(a, m) + keep_confident(b, m) + keep_confident(e, m),
        keep_confident(t, m),
        p,
    );
    let gc = gap_candidates(regions, s, gap, m);
    assert forall|i: int| 0 <= i < gc.len() implies p(gc[i]) by {}
}

/// Every candidate is about a position between a region and the next one and has a
/// confidence between 0 and 1.
proof fn lemma_candidates_sound(regions: Seq<NegativeRegion>, s: Seq<Ternary>, m: (nat, nat), n: nat)
    requires
        regions.len() <= usize::MAX,
        n <= gaps_between(regions).len(),
    ensures
        forall|i: int|
            #![trigger candidates_upto(regions, s, gaps_between(regions), m, n)[i]]
            0 <= i < candidates_upto(regions, s, gaps_between(regions), m, n).len() ==> {
                let v = candidates_upto(regions, s, gaps_between(regions), m, n)[i];
                between_regions(regions, v.position) && unit_confidence(v.confidence)
            },
    decreases n,
{
    if n > 0 {
        let k = (n - 1) as nat;
        let gaps = gaps_between(regions);
        lemma_candidates_sound(regions, s, m, k);
        lemma_gaps_between(regions);
        let gap = gaps[k as int];
        lemma_gap_candidates_sound(regions, s, gap, m);
        let p = |v: InferenceView| between_regions(regions, v.position) && unit_confidence(v.confidence);
        let gc = gap_candidates(regions, s, gap, m);
        assert forall|i: int| 0 <= i < gc.len() implies p(gc[i]) by {
            let l = gap.left_region as int;
            assert(regions[l].end <= gc[i].position < regions[l + 1].start);
        }
        lemma_concat_preserves(candidates_upto(regions, s, gaps, m, k), gc, p);
    }
}

/// Every deduction has a confidence between 0 and 1. With two or more regions each one is
/// about a position between a region and the next; with fewer it is about the position just
/// before the single region.
pub proof fn lemma_deductions_sound(
    regions: Seq<NegativeRegion>,
    s: Seq<Ternary>,
    min: (nat, nat),
    out: Seq<InferenceView>,
)
    requires
        regions.len() <= usize::MAX,
        infer_outcome(regions, s, min, out),
    ensures
        forall|i: int|
            0 <= i < out.len() ==> unit_confidence(out[i].confidence) && if regions.len() >= 2 {
                between_regions(regions, out[i].position)
            } else {
                out[i].position == regions[0].start - 1 && regions[0].start > 0
            },
{
    if regions.len() >= 2 {
        let c = all_candidates(regions, s, min);
        lemma_candidates_sound(regions, s, min, gaps_between(regions).len());
        assert forall|i: int| 0 <= i < out.len() implies unit_confidence(out[i].confidence)
            && between_regions(regions, out[i].position) by {
            assert(selected_from(c, out[i]));
            let k = choose|k: int| 0 <= k < c.len() && c[k] == out[i] && is_first_best(c, k);
        }
    }
}

/// Every deduction drawn from the avoidance regions of a space is about a position of the
/// space.
pub proof fn lemma_deductions_in_space(
    s: Seq<Ternary>,
    regions: Seq<NegativeRegion>,
    min: (nat, nat),
    out: Seq<InferenceView>,
)
    requires
        regions.len() <= usize::MAX,
        is_negative_region_list(s, regions),
        infer_outcome(regions, s, min, out),
    ensures
        forall|i: int| #![trigger out[i]] 0 <= i < out.len() ==> 0 <= out[i].position < s.len(),
{
    lemma_deductions_sound(regions, s, min, out);
    let sp = spans(regions);
    assert forall|i: int| #![trigger out[i]] 0 <= i < out.len() implies 0 <= out[i].position < s.len() by {
        if regions.len() >= 2 {
            let j = choose|j: int|
                #![trigger regions[j], regions[j + 1]]
                0 <= j < regions.len() - 1 && regions[j].end <= out[i].position < regions[j + 1].start;
            assert(sp[j + 1] == (regions[j + 1].start, regions[j + 1].end));
            assert(is_maximal_run(s, Ternary::Avoided, sp[j + 1].0 as int, sp[j + 1].1 as int));
        } else {
            assert(sp[0] == (regions[0].start, regions[0].end));
            assert(is_maximal_run(s, Ternary::Avoided, sp[0].0 as int, sp[0].1 as int));
        }
    }
}


/// Two candidates that are both the first best one about the same position are the same
/// candidate.
proof fn lemma_first_best_unique(c: Seq<InferenceView>, k1: int, k2: int)
    requires
        0 <= k1 < c.len(),
        0 <= k2 < c.len(),
        is_first_best(c, k1),
        is_first_best(c, k2),
        c[k1].position == c[k2].position,
    ensures
        k1 == k2,
{
    if k1 < k2 {
        assert(conf_lt(c[k1].confidence, c[k2].confidence));
        assert(conf_le(c[k2].confidence, c[k1].confidence));
    } else if k2 < k1 {
        assert(conf_lt(c[k2].confidence, c[k1].confidence));
        assert(conf_le(c[k1].confidence, c[k2].confidence));
    }
}

/// Some inference of `o2` is about the position of each inference of `o1`.
proof fn lemma_selection_cross(c: Seq<InferenceView>, o1: Seq<InferenceView>, o2: Seq<InferenceView>, i: int)
    requires
        is_best_selection(c, o1),
        is_best_selection(c, o2),
        0 <= i < o1.len(),
    ensures
        exists|j: int| 0 <= j < o2.len() && o2[j].position == o1[i].position,
{
    assert(selected_from(c, o1[i]));
    let k = choose|k: int| 0 <= k < c.len() && c[k] == o1[i] && is_first_best(c, k);
    assert(position_listed(o2, c[k].position));
}

/// The first `i + 1` inferences of two best selections are about the same positions.
proof fn lemma_selections_agree(c: Seq<InferenceView>, o1: Seq<InferenceView>, o2: Seq<InferenceView>, i: int)
    requires
        is_best_selection(c, o1),
        is_best_selection(c, o2),
        0 <= i < o1.len(),
    ensures
        forall|t: int| 0 <= t <= i ==> t < o2.len() && o1[t].position == o2[t].position,
    decreases i,
{
    if i > 0 {
        lemma_selections_agree(c, o1, o2, i - 1);
    }
    lemma_selection_cross(c, o1, o2, i);
    let j = choose|j: int| 0 <= j < o2.len() && o2[j].position == o1[i].position;
    if j < i {
        assert(o1[j].position == o2[j].position);
        assert(o1[j].position < o1[i].position);
    } else if j > i {
        lemma_selection_cross(c, o2, o1, i);
        let k = choose|k: int| 0 <= k < o1.len() && o1[k].position == o2[i].position;
        if k < i {
            assert(o1[k].position == o2[k].position);
            assert(o2[k].position < o2[i].position);
        } else if k == i {
            assert(o2[i].position < o2[j].position);
        } else {
            assert(o1[i].position < o1[k].position);
            assert(o2[i].position < o2[j].position);
        }
    }
}

/// The best selection from a list of candidates is unique: the deductions are determined
/// by the candidates.
pub proof fn lemma_best_selection_unique(c: Seq<InferenceView>, o1: Seq<InferenceView>, o2: Seq<InferenceView>)
    requires
        is_best_selection(c, o1),
        is_best_selection(c, o2),
    ensures
        o1 == o2,
{
    if o1.len() > 0 {
        lemma_selections_agree(c, o1, o2, o1.len() - 1);
        let last = o1[o1.len() - 1];
        assert(o1.len() - 1 < o2.len());
    }
    if o2.len() > 0 {
        lemma_selections_agree(c, o2, o1, o2.len() - 1);
        let last = o2[o2.len() - 1];
        assert(o2.len() - 1 < o1.len());
    }
    assert forall|i: int| 0 <= i < o1.len() implies o1[i] == o2[i] by {
        assert(o1[i].position == o2[i].position);
        assert(selected_from(c, o1[i]));
        assert(selected_from(c, o2[i]));
        let k1 = choose|k: int| 0 <= k < c.len() && c[k] == o1[i] && is_first_best(c, k);
        let k2 = choose|k: int| 0 <= k < c.len() && c[k] == o2[i] && is_first_best(c, k);
        lemma_first_best_unique(c, k1, k2);
    }
    assert(o1 =~= o2);
}

/// The deduction engine's outcome is determined by the regions, the space and the
/// threshold.
pub proof fn lemma_infer_outcome_unique(
    regions: Seq<NegativeRegion>,
    s: Seq<Ternary>,
    min: (nat, nat),
    o1: Seq<InferenceView>,
    o2: Seq<InferenceView>,
)
    requires
        infer_outcome(regions, s, min, o1),
        infer_outcome(regions, s, min, o2),
    ensures
        o1 == o2,
{
    if regions.len() >= 2 {
        lemma_best_selection_unique(all_candidates(regions, s, min), o1, o2);
    }
}

/// With fewer than two regions the engine deduces at most one position: the one just before
/// a single region whose left boundary is unknown, predicted avoided with confidence 0.5 as
/// a boundary transition. It does so exactly when such a region exists and the threshold is
/// at most 0.5; a region whose left boundary is chosen, avoided or absent gives nothing.
pub proof fn lemma_solitary_deduction(
    regions: Seq<NegativeRegion>,
    s: Seq<Ternary>,
    min: (nat, nat),
    out: Seq<InferenceView>,
)
    requires
        regions.len() < 2,
        infer_outcome(regions, s, min, out),
    ensures
        out.len() <= 1,
        out.len() == 1 <==> (regions.len() == 1 && regions[0].left_boundary == Some(Ternary::Unknown)
            && regions[0].start > 0 && min.0 * 10 <= 5 * min.1),
        out.len() == 1 ==> {
            &&& out[0].position == regions[0].start - 1
            &&& out[0].predicted == Ternary::Avoided
            &&& out[0].inference_type == InferenceType::BoundaryTransition
            &&& out[0].confidence == (5nat, 10nat)
        },
        regions.len() == 1 && regions[0].left_boundary != Some(Ternary::Unknown) ==> out.len() == 0,
{
}

/// An inference is kept at a threshold it reaches.
proof fn lemma_keep_contains(c: Seq<InferenceView>, m: (nat, nat), v: InferenceView)
    requires
        c.contains(v),
        conf_le(m, v.confidence),
    ensures
        keep_confident(c, m).contains(v),
    decreases c.len(),
{
    let d = c.drop_last();
    vstd::seq_lib::lemma_seq_contains_after_push(keep_confident(d, m), c.last(), v);
    if c.last() != v {
        let i = choose|i: int| 0 <= i < c.len() && c[i] == v;
        assert(d[i] == v);
        lemma_keep_contains(d, m, v);
    }
}

/// The candidates of the first `n` gaps include those of each of these gaps.
proof fn lemma_candidates_include(
    regions: Seq<NegativeRegion>,
    s: Seq<Ternary>,
    gaps: Seq<Gap>,
    m: (nat, nat),
    n: nat,
    j: int,
    v: InferenceView,
)
    requires
        0 <= j < n,
        gap_candidates(regions, s, gaps[j], m).contains(v),
    ensures
        candidates_upto(regions, s, gaps, m, n).contains(v),
    decreases n,
{
    let k = (n - 1) as nat;
    lemma_concat_contains(candidates_upto(regions, s, gaps, m, k), gap_candidates(regions, s, gaps[k as int], m), v);
    if j < k {
        lemma_candidates_include(regions, s, gaps, m, k, j, v);
    }
}

/// Whatever a rule infers about the gap between two consecutive regions with at least the
/// threshold's confidence is not lost: the engine deduces that position, with at least that
/// confidence.
pub proof fn lemma_rule_inferences_deduced(
    regions: Seq<NegativeRegion>,
    s: Seq<Ternary>,
    min: (nat, nat),
    out: Seq<InferenceView>,
    i: int,
    v: InferenceView,
)
    requires
        regions.len() <= usize::MAX,
        regions.len() >= 2,
        infer_outcome(regions, s, min, out),
        0 <= i < regions.len() - 1,
        regions[i].end < regions[i + 1].start,
        ({
            let gap = Gap {
                start: regions[i].end,
                end: regions[i + 1].start,
                left_region: i as usize,
                right_region: (i + 1) as usize,
            };
            ||| analogy_spec(regions, gap) == Some(v)
            ||| interpolation_spec(gap).contains(v)
            ||| exclusion_spec(s, gap) == Some(v)
            ||| boundary_spec(regions, gap).contains(v)
        }),
        conf_le(min, v.confidence),
    ensures
        exists|k: int|
            0 <= k < out.len() && out[k].position == v.position && conf_le(v.confidence, out[k].confidence),
{
    let gap = Gap {
        start: regions[i].end,
        end: regions[i + 1].start,
        left_region: i as usize,
        right_region: (i + 1) as usize,
    };
    let gaps = gaps_between(regions);
    crate::regions::lemma_gaps_between_complete(regions);
    assert(regions[i] == regions[i] && regions[i + 1] == regions[i + 1]);
    let j = choose|j: int|
        #![trigger gaps[j]]
        0 <= j < gaps.len() && {
            let g = gaps[j];
            &&& g.start == regions[i].end
            &&& g.end == regions[i + 1].start
            &&& g.left_region == i
            &&& g.right_region == i + 1
        };
    assert(gaps[j] == gap);
    let a = opt_seq(analogy_spec(regions, gap));
    let b = interpolation_spec(gap);
    let e = opt_seq(exclusion_spec(s, gap));
    let t = boundary_spec(regions, gap);
    let l1 = keep_confident(a, min);
    let l2 = keep_confident(b, min);
    let l3 = keep_confident(e, min);
    let l4 = keep_confident(t, min);
    if analogy_spec(regions, gap) == Some(v) {
        assert(a[0] == v);
        lemma_keep_contains(a, min, v);
    } else if b.contains(v) {
        lemma_keep_contains(b, min, v);
    } else if exclusion_spec(s, gap) == Some(v) {
        assert(e[0] == v);
        lemma_keep_contains(e, min, v);
    } else {
        lemma_keep_contains(t, min, v);
    }
    lemma_concat_contains(l1, l2, v);
    lemma_concat_contains(l1 + l2, l3, v);
    lemma_concat_contains(l1 + l2 + l3, l4, v);
    assert(gap_candidates(regions, s, gaps[j], min).contains(v));
    lemma_candidates_include(regions, s, gaps, min, gaps.len(), j, v);
    let c = all_candidates(regions, s, min);
    let k = choose|k: int| 0 <= k < c.len() && c[k] == v;
    assert(position_listed(out, c[k].position));
    let o = choose|o: int| 0 <= o < out.len() && out[o].position == c[k].position;
    assert(selected_from(c, out[o]));
    let k2 = choose|k2: int| 0 <= k2 < c.len() && c[k2] == out[o] && is_first_best(c, k2);
    assert(c[k].position == c[k2].position);
    assert(conf_le(c[k].confidence, c[k2].confidence));
}

/// Every inference kept at a threshold reaches it.
proof fn lemma_keep_reaches(c: Seq<InferenceView>, m: (nat, nat))
    ensures
        forall|i: int|
            #![trigger keep_confident(c, m)[i]]
            0 <= i < keep_confident(c, m).len() ==> conf_le(m, keep_confident(c, m)[i].confidence),
    decreases c.len(),
{
    if c.len() > 0 {
        let d = c.drop_last();
        lemma_keep_reaches(d, m);
        let kd = keep_confident(d, m);
        let kc = keep_confident(c, m);
        assert forall|i: int| 0 <= i < kc.len() implies conf_le(m, kc[i].confidence) by {
            if i < kd.len() {
                assert(kc[i] == kd[i]);
            }
        }
    }
}

/// Every candidate drawn from the first `n` gaps reaches the threshold.
proof fn lemma_candidates_reach(regions: Seq<NegativeRegion>, s: Seq<Ternary>, gaps: Seq<Gap>, m: (nat, nat), n: nat)
    ensures
        forall|i: int|
            #![trigger candidates_upto(regions, s, gaps, m, n)[i]]
            0 <= i < candidates_upto(regions, s, gaps, m, n).len() ==> conf_le(
                m,
                candidates_upto(regions, s, gaps, m, n)[i].confidence,
            ),
    decreases n,
{
    if n > 0 {
        let k = (n - 1) as nat;
        lemma_candidates_reach(regions, s, gaps, m, k);
        let gap = gaps[k as int];
        let p = |v: InferenceView| conf_le(m, v.confidence);
        let a = keep_confident(opt_seq(analogy_spec(regions, gap)), m);
        let b = keep_confident(interpolation_spec(gap), m);
        let e = keep_confident(opt_seq(exclusion_spec(s, gap)), m);
        let t = keep_confident(boundary_spec(regions, gap), m);
        lemma_keep_reaches(opt_seq(analogy_spec(regions, gap)), m);
        lemma_keep_reaches(interpolation_spec(gap), m);
        lemma_keep_reaches(opt_seq(exclusion_spec(s, gap)), m);
        lemma_keep_reaches(boundary_spec(regions, gap), m);
        assert(forall|i: int| 0 <= i < a.len() ==> p(a[i]));
        assert(forall|i: int| 0 <= i < b.len() ==> p(b[i]));
        assert(forall|i: int| 0 <= i < e.len() ==> p(e[i]));
        assert(forall|i: int| 0 <= i < t.len() ==> p(t[i]));
        lemma_concat_preserves(a, b, p);
        lemma_concat_preserves(a + b, e, p);
        lemma_concat_preserves(a + b + e, t, p);
        let prev = candidates_upto(regions, s, gaps, m, k);
        assert(forall|i: int| 0 <= i < prev.len() ==> p(prev[i]));
        lemma_concat_preserves(prev, a + b + e + t, p);
        let cur = candidates_upto(regions, s, gaps, m, n);
        assert forall|i: int| 0 <= i < cur.len() implies conf_le(m, cur[i].confidence) by {
            assert(p(cur[i]));
        }
    }
}

/// Every deduction the engine makes has at least the threshold's confidence.
pub proof fn lemma_deductions_reach_threshold(
    regions: Seq<NegativeRegion>,
    s: Seq<Ternary>,
    min: (nat, nat),
    out: Seq<InferenceView>,
)
    requires
        infer_outcome(regions, s, min, out),
    ensures
        forall|i: int| #![trigger out[i]] 0 <= i < out.len() ==> conf_le(min, out[i].confidence),
{
    if regions.len() >= 2 {
        let c = all_candidates(regions, s, min);
        lemma_candidates_reach(regions, s, gaps_between(regions), min, gaps_between(regions).len());
        assert forall|i: int| #![trigger out[i]] 0 <= i < out.len() implies conf_le(min, out[i].confidence) by {
            assert(selected_from(c, out[i]));
            let k = choose|k: int| 0 <= k < c.len() && c[k] == out[i] && is_first_best(c, k);
            assert(conf_le(min, c[k].confidence));
        }
    }
}

} // verus!
