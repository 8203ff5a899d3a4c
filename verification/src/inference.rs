use vstd::prelude::*;

use crate::ratio::Ratio;
use crate::regions::{shares_boundary, Gap, NegativeRegion};
use crate::space::{cell, TernarySpace};
use crate::ternary::Ternary;
use crate::text::{append_decimal, decimal};

verus! {

/// The kind of rule that produced an inference.
#[derive(Clone, Copy, Debug, PartialEq, Eq, Structural)]
pub enum InferenceType {
    /// Regions that share a boundary type suggest that the gap between them is avoided too.
    Analogy,
    /// Positions next to avoidance are likely avoided; deeper in a gap they stay unknown.
    Interpolation,
    /// A gap in which no position is chosen is excluded as a whole.
    Exclusion,
    /// A region boundary marks a transition between avoidance and choice.
    BoundaryTransition,
}

/// A single inference about a position.
#[derive(Clone, Debug)]
pub struct Inference {
    /// Position this inference is about.
    pub position: usize,
    /// Predicted value.
    pub predicted: Ternary,
    /// Type of inference used.
    pub inference_type: InferenceType,
    /// Confidence, a fraction between 0 and 1.
    pub confidence: Ratio,
    /// Human-readable reason.
    pub reason: String,
}

/// The mathematical content of an inference: the confidence as a (numerator,
/// denominator) pair and the reason as a sequence of characters.
pub struct InferenceView {
    pub position: int,
    pub predicted: Ternary,
    pub inference_type: InferenceType,
    /// (numerator, denominator)
    pub confidence: (nat, nat),
    pub reason: Seq<char>,
}

impl View for Inference {
    type V = InferenceView;

    open spec fn view(&self) -> InferenceView {
        InferenceView {
            position: self.position as int,
            predicted: self.predicted,
            inference_type: self.inference_type,
            confidence: (self.confidence.numer(), self.confidence.denom()),
            reason: self.reason@,
        }
    }
}

impl Inference {
    /// A copy of this inference.
    pub(crate) fn duplicate(&self) -> (r: Inference)
        ensures
            r@ == self@,
    {
        Inference {
            position: self.position,
            predicted: self.predicted,
            inference_type: self.inference_type,
            confidence: self.confidence,
            reason: self.reason.clone(),
        }
    }
}

/// The views of a list of inferences.
pub open spec fn views(v: Seq<Inference>) -> Seq<InferenceView> {
    v.map_values(|i: Inference| i@)
}

/// The view of an optional inference.
pub open spec fn opt_view(o: Option<Inference>) -> Option<InferenceView> {
    match o {
        Some(i) => Some(i@),
        None => None,
    }
}

/// An optional inference as a list of zero or one inferences.
pub open spec fn opt_seq(o: Option<InferenceView>) -> Seq<InferenceView> {
    match o {
        Some(i) => seq![i],
        None => Seq::empty(),
    }
}

/// `a <= b` for fractions given as (numerator, denominator) pairs.
pub open spec fn conf_le(a: (nat, nat), b: (nat, nat)) -> bool {
    a.0 * b.1 <= b.0 * a.1
}

/// `a < b` for fractions given as (numerator, denominator) pairs.
pub open spec fn conf_lt(a: (nat, nat), b: (nat, nat)) -> bool {
    a.0 * b.1 < b.0 * a.1
}

/// The inference with the given content.
pub open spec fn make(
    position: int,
    predicted: Ternary,
    inference_type: InferenceType,
    confidence: (nat, nat),
    reason: Seq<char>,
) -> InferenceView {
    InferenceView { position, predicted, inference_type, confidence, reason }
}

/// The reason given by the analogy rule.
pub open spec fn analogy_reason(ls: nat, le: nat, rs: nat, re: nat, mid: nat) -> Seq<char> {
    "Regions ["@ + decimal(ls) + ","@ + decimal(le) + ") and ["@ + decimal(rs) + ","@ + decimal(re)
        + ") share boundary type; gap center "@ + decimal(mid) + " likely avoided"@
}

/// The reason given for the left edge position of a gap.
pub open spec fn left_edge_reason(p: nat) -> Seq<char> {
    "Position "@ + decimal(p) + " adjacent to left avoidance region"@
}

/// The reason given for the right edge position of a gap.
pub open spec fn right_edge_reason(p: nat) -> Seq<char> {
    "Position "@ + decimal(p) + " adjacent to right avoidance region"@
}

/// The reason given for an interior position of a gap at distance `d` from its edges.
pub open spec fn interior_reason(p: nat, d: nat) -> Seq<char> {
    "Position "@ + decimal(p) + " in gap interior, distance "@ + decimal(d)
        + " from nearest avoidance"@
}

/// The reason given by the exclusion rule.
pub open spec fn exclusion_reason(start: nat, end: nat) -> Seq<char> {
    "Gap ["@ + decimal(start) + ","@ + decimal(end)
        + ") fully excluded \u{2014} all positions avoided or unknown"@
}

/// The reason given for a transition from avoidance to choice.
pub open spec fn entering_choice_reason(p: nat) -> Seq<char> {
    "Position "@ + decimal(p) + " at boundary transition (avoidance\u{2192}choice)"@
}

/// The reason given for a transition from choice to avoidance.
pub open spec fn leaving_choice_reason(p: nat) -> Seq<char> {
    "Position "@ + decimal(p) + " at boundary transition (choice\u{2192}avoidance)"@
}

/// The reason given for the position before a solitary region.
pub open spec fn solitary_reason(p: nat) -> Seq<char> {
    "Position "@ + decimal(p) + " just before solitary avoidance region"@
}

// The rules.

/// Analogy: where the left region's right boundary equals the right region's left boundary
/// and the gap is no larger than the two regions together, the gap's centre is predicted
/// avoided with confidence 0.6 + 0.2 / (g + 1) = (3g + 4) / (5g + 5) for a gap of size g.
pub open spec fn analogy_spec(regions: Seq<NegativeRegion>, gap: Gap) -> Option<InferenceView> {
    let left = regions[gap.left_region as int];
    let right = regions[gap.right_region as int];
    let g = gap.end - gap.start;
    if shares_boundary(left, right) && g <= left.size + right.size {
        let mid = gap.start + g / 2;
        Some(
            make(
                mid,
                Ternary::Avoided,
                InferenceType::Analogy,
                ((3 * g + 4) as nat, (5 * g + 5) as nat),
                analogy_reason(
                    left.start as nat,
                    left.end as nat,
                    right.start as nat,
                    right.end as nat,
                    mid as nat,
                ),
            ),
        )
    } else {
        None
    }
}

/// The distance from `pos` to the nearest edge position of the gap.
pub open spec fn edge_distance(gap: Gap, pos: int) -> int {
    let a = pos - gap.start;
    let b = gap.end - 1 - pos;
    if a < b {
        a
    } else {
        b
    }
}

/// The interpolation for an interior position of a gap: unknown, with confidence
/// 0.3 + 0.1 d capped at 0.6, where d is the distance to the nearest edge position.
pub open spec fn interior_inference(gap: Gap, pos: int) -> InferenceView {
    let d = edge_distance(gap, pos);
    make(
        pos,
        Ternary::Unknown,
        InferenceType::Interpolation,
        if d >= 3 {
            (6nat, 10nat)
        } else {
            ((3 + d) as nat, 10nat)
        },
        interior_reason(pos as nat, d as nat),
    )
}

/// Interpolation: a gap of size at least 2 has both edge positions predicted avoided
/// (confidence 0.7); a gap of size at least 4 also has each position strictly between the
/// edges predicted unknown, from left to right.
pub open spec fn interpolation_spec(gap: Gap) -> Seq<InferenceView> {
    let n = gap.end - gap.start;
    let edges = if n >= 2 {
        seq![
            make(
                gap.start as int,
                Ternary::Avoided,
                InferenceType::Interpolation,
                (7nat, 10nat),
                left_edge_reason(gap.start as nat),
            ),
            make(
                gap.end - 1,
                Ternary::Avoided,
                InferenceType::Interpolation,
                (7nat, 10nat),
                right_edge_reason((gap.end - 1) as nat),
            ),
        ]
    } else {
        Seq::empty()
    };
    let interior = if n >= 4 {
        Seq::new((n - 2) as nat, |k: int| interior_inference(gap, gap.start + 1 + k))
    } else {
        Seq::empty()
    };
    edges + interior
}

/// Exclusion: a non-empty gap in which no position is chosen in `s` (every position is
/// avoided or unknown) has its centre predicted avoided with confidence 0.95.
pub open spec fn exclusion_spec(s: Seq<Ternary>, gap: Gap) -> Option<InferenceView> {
    if gap.start < gap.end && forall|p: int| gap.start <= p < gap.end ==> cell(s, p) != Ternary::Chosen {
        Some(
            make(
                gap.start + (gap.end - gap.start) / 2,
                Ternary::Avoided,
                InferenceType::Exclusion,
                (95nat, 100nat),
                exclusion_reason(gap.start as nat, gap.end as nat),
            ),
        )
    } else {
        None
    }
}

/// Boundary transition: where the left region's right boundary is chosen, the gap's first
/// position is predicted chosen; where the gap is not empty and the right region's left
/// boundary is chosen, the gap's last position is predicted chosen (confidence 0.8 each).
pub open spec fn boundary_spec(regions: Seq<NegativeRegion>, gap: Gap) -> Seq<InferenceView> {
    let left = regions[gap.left_region as int];
    let first = if left.right_boundary == Some(Ternary::Chosen) {
        seq![
            make(
                gap.start as int,
                Ternary::Chosen,
                InferenceType::BoundaryTransition,
                (8nat, 10nat),
                entering_choice_reason(gap.start as nat),
            ),
        ]
    } else {
        Seq::empty()
    };
    let second = if gap.start < gap.end && regions[gap.right_region as int].left_boundary == Some(
        Ternary::Chosen,
    ) {
        seq![
            make(
                gap.end - 1,
                Ternary::Chosen,
                InferenceType::BoundaryTransition,
                (8nat, 10nat),
                leaving_choice_reason((gap.end - 1) as nat),
            ),
        ]
    } else {
        Seq::empty()
    };
    first + second
}

// Building reasons.

fn text_analogy(ls: usize, le: usize, rs: usize, re: usize, mid: usize) -> (s: String)
    ensures
        s@ == analogy_reason(ls as nat, le as nat, rs as nat, re as nat, mid as nat),
{
    let mut s = String::from_str("Regions [");
    append_decimal(&mut s, ls);
    s.append(",");
    append_decimal(&mut s, le);
    s.append(") and [");
    append_decimal(&mut s, rs);
    s.append(",");
    append_decimal(&mut s, re);
    s.append(") share boundary type; gap center ");
    append_decimal(&mut s, mid);
    s.append(" likely avoided");
    s
}

pub(crate) fn text_position(p: usize, tail: &str) -> (s: String)
    ensures
        s@ == "Position "@ + decimal(p as nat) + tail@,
{
    let mut s = String::from_str("Position ");
    append_decimal(&mut s, p);
    s.append(tail);
    s
}

fn text_interior(p: usize, d: usize) -> (s: String)
    ensures
        s@ == interior_reason(p as nat, d as nat),
{
    let mut s = String::from_str("Position ");
    append_decimal(&mut s, p);
    s.append(" in gap interior, distance ");
    append_decimal(&mut s, d);
    s.append(" from nearest avoidance");
    s
}

fn text_exclusion(start: usize, end: usize) -> (s: String)
    ensures
        s@ == exclusion_reason(start as nat, end as nat),
{
    let mut s = String::from_str("Gap [");
    append_decimal(&mut s, start);
    s.append(",");
    append_decimal(&mut s, end);
    s.append(") fully excluded \u{2014} all positions avoided or unknown");
    s
}

/// Inference rules for deducing from gaps.
pub struct InferenceRule;

impl InferenceRule {
    /// Analogy: if the regions around the gap share boundary types, infer that the gap's
    /// centre is avoided.
    pub fn analogy(regions: &[NegativeRegion], gap: &Gap) -> (r: Option<Inference>)
        requires
            gap.left_region < regions@.len(),
            gap.right_region < regions@.len(),
            gap.start <= gap.end,
            shares_boundary(regions@[gap.left_region as int], regions@[gap.right_region as int])
                ==> regions@[gap.left_region as int].size + regions@[gap.right_region as int].size
                <= usize::MAX,
        ensures
            opt_view(r) == analogy_spec(regions@, *gap),
    {
        let left = &regions[gap.left_region];
        let right = &regions[gap.right_region];
        if left.shares_boundary_type(right) && gap.size() <= left.size + right.size {
            let g = gap.size();
            let mid = gap.start + g / 2;
            let confidence = Ratio::new(3 * (g as u128) + 4, 5 * (g as u128) + 5);
            let reason = text_analogy(left.start, left.end, right.start, right.end, mid);
            Some(
                Inference {
                    position: mid,
                    predicted: Ternary::Avoided,
                    inference_type: InferenceType::Analogy,
                    confidence,
                    reason,
                },
            )
        } else {
            None
        }
    }

    /// Interpolation: positions next to the avoidance regions are likely avoided; positions
    /// deeper in a wide gap stay unknown, with confidence growing with their distance from
    /// the edges.
    pub fn interpolation(regions: &[NegativeRegion], gap: &Gap) -> (r: Vec<Inference>)
        requires
            gap.start <= gap.end,
        ensures
            views(r@) == interpolation_spec(*gap),
    {
        let mut inferences: Vec<Inference> = Vec::new();
        if gap.size() == 0 {
            assert(views(inferences@) == interpolation_spec(*gap));
            return inferences;
        }
        let gap_size = gap.size();
        if gap_size >= 2 {
            inferences.push(
                Inference {
                    position: gap.start,
                    predicted: Ternary::Avoided,
                    inference_type: InferenceType::Interpolation,
                    confidence: Ratio::new(7, 10),
                    reason: text_position(gap.start, " adjacent to left avoidance region"),
                },
            );
            inferences.push(
                Inference {
                    position: gap.end - 1,
                    predicted: Ternary::Avoided,
                    inference_type: InferenceType::Interpolation,
                    confidence: Ratio::new(7, 10),
                    reason: text_position(gap.end - 1, " adjacent to right avoidance region"),
                },
            );
        }
        let ghost edges = views(inferences@);
        if gap_size >= 4 {
            let mut pos = gap.start + 1;
            while pos < gap.end - 1
                invariant
                    gap.start + 4 <= gap.end,
                    gap.start + 1 <= pos <= gap.end - 1,
                    views(inferences@) == edges + Seq::new(
                        (pos - gap.start - 1) as nat,
                        |k: int| interior_inference(*gap, gap.start + 1 + k),
                    ),
                decreases gap.end - pos,
            {
                let a = pos - gap.start;
                let b = gap.end - 1 - pos;
                let dist_from_edge = if a < b {
                    a
                } else {
                    b
                };
                let confidence = if dist_from_edge >= 3 {
                    Ratio::new(6, 10)
                } else {
                    Ratio::new(3 + dist_from_edge as u128, 10)
                };
                let ghost before = views(inferences@);
                inferences.push(
                    Inference {
                        position: pos,
                        predicted: Ternary::Unknown,
                        inference_type: InferenceType::Interpolation,
                        confidence,
                        reason: text_interior(pos, dist_from_edge),
                    },
                );
                assert(views(inferences@) == before.push(interior_inference(*gap, pos as int)));
                pos = pos + 1;
                assert(views(inferences@) == edges + Seq::new(
                    (pos - gap.start - 1) as nat,
                    |k: int| interior_inference(*gap, gap.start + 1 + k),
                ));
            }
        }
        proof {
            assert(views(inferences@) == interpolation_spec(*gap));
        }
        inferences
    }

    /// Exclusion: a non-empty gap in which no agent chose anything is excluded as a whole.
    pub fn exclusion(space: &TernarySpace, gap: &Gap) -> (r: Option<Inference>)
        requires
            gap.start <= gap.end,
        ensures
            opt_view(r) == exclusion_spec(space@, *gap),
    {
        let mut any_chosen = false;
        let mut p = gap.start;
        while p < gap.end
            invariant
                gap.start <= p <= gap.end,
                any_chosen == exists|q: int|
                    gap.start <= q < p && cell(space@, q) == Ternary::Chosen,
            decreases gap.end - p,
        {
            if space.get(p).is_chosen() {
                any_chosen = true;
            }
            p = p + 1;
        }
        if !any_chosen && gap.size() > 0 {
            Some(
                Inference {
                    position: gap.start + gap.size() / 2,
                    predicted: Ternary::Avoided,
                    inference_type: InferenceType::Exclusion,
                    confidence: Ratio::new(95, 100),
                    reason: text_exclusion(gap.start, gap.end),
                },
            )
        } else {
            None
        }
    }

    /// Boundary transition: a chosen value just outside a region marks a transition between
    /// avoidance and choice at the gap's edge.
    pub fn boundary_transition(regions: &[NegativeRegion], gap: &Gap) -> (r: Vec<Inference>)
        requires
            gap.left_region < regions@.len(),
            gap.start <= gap.end,
            gap.start < gap.end ==> gap.right_region < regions@.len(),
        ensures
            views(r@) == boundary_spec(regions@, *gap),
    {
        let mut inferences: Vec<Inference> = Vec::new();
        let left = &regions[gap.left_region];
        if let Some(lb) = left.right_boundary {
            if lb.is_chosen() {
                inferences.push(
                    Inference {
                        position: gap.start,
                        predicted: Ternary::Chosen,
                        inference_type: InferenceType::BoundaryTransition,
                        confidence: Ratio::new(8, 10),
                        reason: text_position(
                            gap.start,
                            " at boundary transition (avoidance\u{2192}choice)",
                        ),
                    },
                );
            }
        }
        let ghost first = views(inferences@);
        if gap.size() > 0 {
            let right = &regions[gap.right_region];
            if let Some(rb) = right.left_boundary {
                if rb.is_chosen() {
                    inferences.push(
                        Inference {
                            position: gap.end - 1,
                            predicted: Ternary::Chosen,
                            inference_type: InferenceType::BoundaryTransition,
                            confidence: Ratio::new(8, 10),
                            reason: text_position(
                                gap.end - 1,
                                " at boundary transition (choice\u{2192}avoidance)",
                            ),
                        },
                    );
                }
            }
        }
        proof {
            assert(views(inferences@) == boundary_spec(regions@, *gap));
        }
        inferences
    }
}



/// Interior positions of a gap, further from the avoidance regions, get less confidence than
/// the edge positions; the analogy confidence lies above 0.6 and never exceeds 0.8, below
/// the 0.95 cap.
pub proof fn lemma_rule_confidences(regions: Seq<NegativeRegion>, gap: Gap)
    requires
        gap.start <= gap.end,
    ensures
        forall|i: int|
            #![trigger interpolation_spec(gap)[i]]
            0 <= i < interpolation_spec(gap).len() && interpolation_spec(gap)[i].predicted
                == Ternary::Unknown ==> conf_lt(interpolation_spec(gap)[i].confidence, (7nat, 10nat)),
        analogy_spec(regions, gap) matches Some(v) ==> conf_lt((3nat, 5nat), v.confidence) && conf_le(
            v.confidence,
            (4nat, 5nat),
        ),
{
    let b = interpolation_spec(gap);
    let g = gap.end - gap.start;
    assert forall|i: int| 0 <= i < b.len() && b[i].predicted == Ternary::Unknown implies conf_lt(
        b[i].confidence,
        (7nat, 10nat),
    ) by {
        if g >= 4 && i >= 2 {
            assert(b[i] == interior_inference(gap, gap.start + 1 + (i - 2)));
        }
    }
}

/// Some inference of `r` is about position `p`.
pub open spec fn has_inference_at(r: Seq<InferenceView>, p: int) -> bool {
    exists|i: int| 0 <= i < r.len() && r[i].position == p
}

/// The smaller of `a` and `b`, but at most 3.
pub open spec fn min3(a: int, b: int) -> int {
    let m = if a < b {
        a
    } else {
        b
    };
    if m > 3 {
        3
    } else {
        m
    }
}

/// Interpolation on a gap of size `n`: nothing below size 2; from size 2 the two edge
/// positions, `start` and `end - 1`, are predicted avoided with confidence 0.7; from size 4
/// every other position of the gap is also covered, predicted unknown with confidence
/// 0.3 + 0.1 d for its distance d to the nearer edge position, capped at 0.6. Every
/// inference is about a position of the gap.
pub proof fn lemma_interpolation_law(gap: Gap)
    requires
        gap.start <= gap.end,
    ensures
        gap.end - gap.start < 2 ==> interpolation_spec(gap).len() == 0,
        2 <= gap.end - gap.start < 4 ==> interpolation_spec(gap).len() == 2,
        gap.end - gap.start >= 4 ==> interpolation_spec(gap).len() == gap.end - gap.start,
        gap.end - gap.start >= 2 ==> exists|i: int|
            #![trigger interpolation_spec(gap)[i]]
            0 <= i < interpolation_spec(gap).len() && interpolation_spec(gap)[i].position == gap.start
                && interpolation_spec(gap)[i].predicted == Ternary::Avoided
                && interpolation_spec(gap)[i].confidence == (7nat, 10nat),
        gap.end - gap.start >= 2 ==> exists|i: int|
            #![trigger interpolation_spec(gap)[i]]
            0 <= i < interpolation_spec(gap).len() && interpolation_spec(gap)[i].position == gap.end
                - 1 && interpolation_spec(gap)[i].predicted == Ternary::Avoided
                && interpolation_spec(gap)[i].confidence == (7nat, 10nat),
        forall|i: int|
            #![trigger interpolation_spec(gap)[i]]
            0 <= i < interpolation_spec(gap).len() ==> {
                let v = interpolation_spec(gap)[i];
                &&& gap.start <= v.position < gap.end
                &&& v.inference_type == InferenceType::Interpolation
                &&& (v.position != gap.start && v.position != gap.end - 1) ==> (v.predicted
                    == Ternary::Unknown && conf_le((4nat, 10nat), v.confidence) && conf_le(
                    v.confidence,
                    (6nat, 10nat),
                ) && v.confidence.1 == 10 && v.confidence.0 == 3 + min3(
                    v.position - gap.start,
                    gap.end - 1 - v.position,
                ))
            },
        gap.end - gap.start >= 4 ==> forall|p: int|
            gap.start < p < gap.end - 1 ==> #[trigger] has_inference_at(interpolation_spec(gap), p),
{
    let r = interpolation_spec(gap);
    let n = gap.end - gap.start;
    if n >= 2 {
        assert(r[0].position == gap.start && r[0].predicted == Ternary::Avoided);
        assert(r[1].position == gap.end - 1 && r[1].predicted == Ternary::Avoided);
    }
    assert forall|i: int| #![trigger r[i]] 0 <= i < r.len() implies {
        let v = r[i];
        &&& gap.start <= v.position < gap.end
        &&& v.inference_type == InferenceType::Interpolation
        &&& (v.position != gap.start && v.position != gap.end - 1) ==> (v.predicted
            == Ternary::Unknown && conf_le((4nat, 10nat), v.confidence) && conf_le(
            v.confidence,
            (6nat, 10nat),
        ) && v.confidence.1 == 10 && v.confidence.0 == 3 + min3(
            v.position - gap.start,
            gap.end - 1 - v.position,
        ))
    } by {
        if n >= 4 && i >= 2 {
            assert(r[i] == interior_inference(gap, gap.start + 1 + (i - 2)));
        }
    }
    if n >= 4 {
        assert forall|p: int| gap.start < p < gap.end - 1 implies #[trigger] has_inference_at(r, p) by {
            let i = p - gap.start - 1 + 2;
            assert(r[i] == interior_inference(gap, gap.start + 1 + (i - 2)));
        }
    }
}

/// Boundary transition: every inference predicts chosen with confidence 0.8 at an edge of the
/// gap. The gap's first position is deduced exactly when the left region's right boundary is
/// chosen, its last position exactly when the gap is not empty and the right region's left
/// boundary is chosen, one inference for each.
pub proof fn lemma_boundary_law(regions: Seq<NegativeRegion>, gap: Gap)
    requires
        gap.left_region < regions.len(),
        gap.start <= gap.end,
        gap.start < gap.end ==> gap.right_region < regions.len(),
    ensures
        boundary_spec(regions, gap).len() == (if regions[gap.left_region as int].right_boundary == Some(
            Ternary::Chosen,
        ) {
            1int
        } else {
            0int
        }) + (if gap.start < gap.end && regions[gap.right_region as int].left_boundary == Some(
            Ternary::Chosen,
        ) {
            1int
        } else {
            0int
        }),
        forall|i: int|
            #![trigger boundary_spec(regions, gap)[i]]
            0 <= i < boundary_spec(regions, gap).len() ==> {
                let v = boundary_spec(regions, gap)[i];
                &&& v.predicted == Ternary::Chosen
                &&& v.inference_type == InferenceType::BoundaryTransition
                &&& v.confidence == (8nat, 10nat)
                &&& v.position == gap.start || v.position == gap.end - 1
            },
        gap.start + 1 < gap.end ==> ((exists|i: int|
            #![trigger boundary_spec(regions, gap)[i]]
            0 <= i < boundary_spec(regions, gap).len() && boundary_spec(regions, gap)[i].position
                == gap.end - 1) <==> regions[gap.right_region as int].left_boundary == Some(
            Ternary::Chosen,
        )),
        gap.start + 1 < gap.end ==> ((exists|i: int|
            #![trigger boundary_spec(regions, gap)[i]]
            0 <= i < boundary_spec(regions, gap).len() && boundary_spec(regions, gap)[i].position
                == gap.start) <==> regions[gap.left_region as int].right_boundary == Some(
            Ternary::Chosen,
        )),
{
    let r = boundary_spec(regions, gap);
    let lc = regions[gap.left_region as int].right_boundary == Some(Ternary::Chosen);
    if gap.start + 1 < gap.end {
        if lc {
            assert(r[0].position == gap.start);
        }
        if regions[gap.right_region as int].left_boundary == Some(Ternary::Chosen) {
            let k = if lc {
                1int
            } else {
                0int
            };
            assert(r[k].position == gap.end - 1);
        }
    }
}

/// Analogy fires exactly when the left region's right boundary is present and equal to the
/// right region's left boundary and the gap is no larger than the two regions together; it
/// then predicts the gap's centre avoided, with a confidence above 0.6 and at most 0.8.
pub proof fn lemma_analogy_law(regions: Seq<NegativeRegion>, gap: Gap)
    requires
        gap.left_region < regions.len(),
        gap.right_region < regions.len(),
        gap.start < gap.end,
    ensures
        analogy_spec(regions, gap) is Some <==> ({
            let l = regions[gap.left_region as int];
            let r = regions[gap.right_region as int];
            &&& l.right_boundary is Some
            &&& l.right_boundary == r.left_boundary
            &&& gap.end - gap.start <= l.size + r.size
        }),
        analogy_spec(regions, gap) matches Some(v) ==> {
            &&& v.position == gap.start + (gap.end - gap.start) / 2
            &&& gap.start <= v.position < gap.end
            &&& v.predicted == Ternary::Avoided
            &&& v.inference_type == InferenceType::Analogy
            &&& conf_lt((3nat, 5nat), v.confidence)
            &&& conf_le(v.confidence, (4nat, 5nat))
        },
{
    lemma_rule_confidences(regions, gap);
}

/// Exclusion fires exactly when the gap is not empty and no position of it is chosen; it then
/// predicts the gap's centre avoided with confidence 0.95.
pub proof fn lemma_exclusion_law(s: Seq<Ternary>, gap: Gap)
    requires
        gap.start <= gap.end,
    ensures
        exclusion_spec(s, gap) is Some <==> (gap.start < gap.end && forall|p: int|
            gap.start <= p < gap.end ==> !(0 <= p < s.len() && s[p] == Ternary::Chosen)),
        exclusion_spec(s, gap) matches Some(v) ==> {
            &&& v.position == gap.start + (gap.end - gap.start) / 2
            &&& gap.start <= v.position < gap.end
            &&& v.predicted == Ternary::Avoided
            &&& v.inference_type == InferenceType::Exclusion
            &&& v.confidence == (95nat, 100nat)
        },
{
    let a = forall|p: int| gap.start <= p < gap.end ==> cell(s, p) != Ternary::Chosen;
    let b = forall|p: int| gap.start <= p < gap.end ==> !(0 <= p < s.len() && s[p] == Ternary::Chosen);
    if a {
        assert forall|p: int| gap.start <= p < gap.end implies !(0 <= p < s.len() && s[p]
            == Ternary::Chosen) by {
            assert(cell(s, p) != Ternary::Chosen);
        }
    }
    if b {
        assert forall|p: int| gap.start <= p < gap.end implies cell(s, p) != Ternary::Chosen by {
            assert(!(0 <= p < s.len() && s[p] == Ternary::Chosen));
        }
    }
    assert(a <==> b);
}

} // verus!
