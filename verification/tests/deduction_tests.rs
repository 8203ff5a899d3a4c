use ternary_inference::{
    AvoidanceMap, DeductionEngine, FeedbackValidator, Gap, Inference, InferenceRule, InferenceType, Ratio,
    Ternary, TernarySpace,
};

fn space_from(values: &[i8]) -> TernarySpace {
    let mut s = TernarySpace::new(values.len());
    for (i, v) in values.iter().enumerate() {
        s.set(i, *v);
    }
    s
}

fn conf(inf: &Inference) -> (u128, u128) {
    (inf.confidence.numerator(), inf.confidence.denominator())
}

fn summary(d: &[Inference]) -> Vec<(usize, Ternary, InferenceType, (u128, u128))> {
    d.iter().map(|i| (i.position, i.predicted, i.inference_type, conf(i))).collect()
}

// 0 C, 1-2 A, 3 C, 4-5 U, 6 C, 7-8 A, 9 C, 10-14 U
fn analogy_space() -> TernarySpace {
    space_from(&[1, -1, -1, 1, 0, 0, 1, -1, -1, 1, 0, 0, 0, 0, 0])
}

#[test]
fn analogy_confidence_and_reason_are_exact() {
    let s = analogy_space();
    let map = AvoidanceMap::from_space(&s);
    let regions = map.find_negative_regions();
    let gaps = map.find_gaps_between_regions(&regions);
    let inf = InferenceRule::analogy(&regions, &gaps[0]).unwrap();
    assert_eq!(inf.position, 5);
    assert_eq!(conf(&inf), (16, 25));
    assert_eq!(inf.reason, "Regions [1,3) and [7,9) share boundary type; gap center 5 likely avoided");
}

#[test]
fn analogy_needs_gap_no_larger_than_regions() {
    // regions of size 1 around a gap of size 3: 3 > 1 + 1
    let s = space_from(&[1, -1, 1, 0, 1, -1, 1]);
    let map = AvoidanceMap::from_space(&s);
    let regions = map.find_negative_regions();
    let gaps = map.find_gaps_between_regions(&regions);
    assert_eq!(gaps.len(), 1);
    assert!(InferenceRule::analogy(&regions, &gaps[0]).is_none());
}

#[test]
fn interpolation_values_are_exact() {
    let gap = Gap { start: 4, end: 12, left_region: 0, right_region: 1 };
    let inf = InferenceRule::interpolation(&[], &gap);
    let got: Vec<(usize, Ternary, (u128, u128))> = inf.iter().map(|i| (i.position, i.predicted, conf(i))).collect();
    assert_eq!(
        got,
        vec![
            (4, Ternary::Avoided, (7, 10)),
            (11, Ternary::Avoided, (7, 10)),
            (5, Ternary::Unknown, (4, 10)),
            (6, Ternary::Unknown, (5, 10)),
            (7, Ternary::Unknown, (6, 10)),
            (8, Ternary::Unknown, (6, 10)),
            (9, Ternary::Unknown, (5, 10)),
            (10, Ternary::Unknown, (4, 10)),
        ]
    );
    assert_eq!(inf[0].reason, "Position 4 adjacent to left avoidance region");
    assert_eq!(inf[1].reason, "Position 11 adjacent to right avoidance region");
    assert_eq!(inf[2].reason, "Position 5 in gap interior, distance 1 from nearest avoidance");
}

#[test]
fn interpolation_small_gaps() {
    let one = Gap { start: 2, end: 3, left_region: 0, right_region: 1 };
    assert!(InferenceRule::interpolation(&[], &one).is_empty());
    let three = Gap { start: 2, end: 5, left_region: 0, right_region: 1 };
    let inf = InferenceRule::interpolation(&[], &three);
    assert_eq!(inf.len(), 2);
    assert_eq!(inf[0].position, 2);
    assert_eq!(inf[1].position, 4);
}

#[test]
fn exclusion_fires_when_nothing_is_chosen() {
    let mut s = space_from(&[-1, -1, -1, -1, -1, -1]);
    let gap = Gap { start: 1, end: 5, left_region: 0, right_region: 1 };
    let inf = InferenceRule::exclusion(&s, &gap).unwrap();
    assert_eq!(inf.position, 3);
    assert_eq!(inf.predicted, Ternary::Avoided);
    assert_eq!(conf(&inf), (95, 100));
    assert_eq!(inf.reason, "Gap [1,5) fully excluded \u{2014} all positions avoided or unknown");
    s.set(2, 0);
    assert!(InferenceRule::exclusion(&s, &gap).is_some());
    s.set(3, 1);
    assert!(InferenceRule::exclusion(&s, &gap).is_none());
    let empty = Gap { start: 3, end: 3, left_region: 0, right_region: 1 };
    assert!(InferenceRule::exclusion(&s, &empty).is_none());
    let unknowns = TernarySpace::new(4);
    let all = Gap { start: 0, end: 4, left_region: 0, right_region: 1 };
    assert_eq!(InferenceRule::exclusion(&unknowns, &all).unwrap().position, 2);
}

#[test]
fn boundary_transition_both_sides() {
    let s = analogy_space();
    let map = AvoidanceMap::from_space(&s);
    let regions = map.find_negative_regions();
    let gaps = map.find_gaps_between_regions(&regions);
    let inf = InferenceRule::boundary_transition(&regions, &gaps[0]);
    assert_eq!(inf.len(), 2);
    assert_eq!((inf[0].position, inf[0].predicted), (3, Ternary::Chosen));
    assert_eq!((inf[1].position, inf[1].predicted), (6, Ternary::Chosen));
    assert_eq!(inf[0].reason, "Position 3 at boundary transition (avoidance\u{2192}choice)");
    assert_eq!(inf[1].reason, "Position 6 at boundary transition (choice\u{2192}avoidance)");
}

#[test]
fn engine_keeps_most_confident_per_position() {
    let s = analogy_space();
    let map = AvoidanceMap::from_space(&s);
    let d = DeductionEngine::new().infer_from_map(&map);
    assert_eq!(
        summary(&d),
        vec![
            (3, Ternary::Chosen, InferenceType::BoundaryTransition, (8, 10)),
            (4, Ternary::Unknown, InferenceType::Interpolation, (4, 10)),
            (5, Ternary::Avoided, InferenceType::Analogy, (16, 25)),
            (6, Ternary::Chosen, InferenceType::BoundaryTransition, (8, 10)),
        ]
    );
}

#[test]
fn engine_threshold_filters_candidates() {
    let s = analogy_space();
    let map = AvoidanceMap::from_space(&s);
    let mid = DeductionEngine::with_confidence(Ratio::new(1, 2)).infer_from_map(&map);
    let positions: Vec<usize> = mid.iter().map(|i| i.position).collect();
    assert_eq!(positions, vec![3, 5, 6]);
    let high = DeductionEngine::with_confidence(Ratio::new(9, 10)).infer_from_map(&map);
    assert!(high.is_empty());
    let low = DeductionEngine::with_confidence(Ratio::new(0, 1)).infer_from_map(&map);
    assert!(low.len() >= mid.len() && mid.len() >= high.len());
}

#[test]
fn engine_pipeline_exact() {
    let mut space = TernarySpace::new(20);
    for p in [1, 2, 3, 12, 13, 14] {
        space.set(p, -1);
    }
    space.set(0, 1);
    space.set(18, 1);
    let map = AvoidanceMap::from_space(&space);
    let d = DeductionEngine::default().infer_from_map(&map);
    let positions: Vec<usize> = d.iter().map(|i| i.position).collect();
    assert_eq!(positions, vec![4, 5, 6, 7, 8, 9, 10, 11]);
    assert_eq!(conf(&d[3]), (6, 10));
    assert_eq!((d[4].inference_type, d[4].predicted, conf(&d[4])), (InferenceType::Exclusion, Ternary::Avoided, (95, 100)));
    let mut v = FeedbackValidator::default();
    for inf in &d {
        v.record(inf, space.get(inf.position));
    }
    assert_eq!(v.total(), 8);
    assert_eq!(v.correct(), 5);
    let a = v.accuracy();
    assert_eq!((a.numerator(), a.denominator()), (5, 8));
    let copy = v.clone();
    assert_eq!(copy.total(), 8);
    assert_eq!(copy.records(), v.records());
}

#[test]
fn engine_single_region_reason() {
    let s = space_from(&[0, -1, -1, 1]);
    let d = DeductionEngine::new().infer_from_map(&AvoidanceMap::from_space(&s));
    assert_eq!(d.len(), 1);
    assert_eq!(d[0].reason, "Position 0 just before solitary avoidance region");
    assert_eq!(conf(&d[0]), (5, 10));
    // the solitary deduction is kept only where the threshold allows it
    let strict = DeductionEngine::with_confidence(Ratio::new(9, 10)).infer_from_map(&AvoidanceMap::from_space(&s));
    assert!(strict.is_empty());
    let half = DeductionEngine::with_confidence(Ratio::new(1, 2)).infer_from_map(&AvoidanceMap::from_space(&s));
    assert_eq!(half.len(), 1);
    // a single region at the left edge gives nothing
    let edge = space_from(&[-1, 0, 0]);
    assert!(DeductionEngine::new().infer_from_map(&AvoidanceMap::from_space(&edge)).is_empty());
}

#[test]
fn engine_positions_stay_in_space() {
    let s = space_from(&[-1, 0, 0, 0, 0, 0, -1, 1, 1, -1, -1, 0, -1]);
    let d = DeductionEngine::with_confidence(Ratio::new(0, 1)).infer_from_map(&AvoidanceMap::from_space(&s));
    assert!(!d.is_empty());
    for w in d.windows(2) {
        assert!(w[0].position < w[1].position);
    }
    for inf in &d {
        assert!(inf.position < s.size());
        assert!(inf.confidence.numerator() <= inf.confidence.denominator());
    }
}
