use ternary_inference::{AvoidanceMap, FeedbackValidator, Ratio, Ternary, TernarySpace};

#[test]
fn read_after_write() {
    let mut s = TernarySpace::new(4);
    s.set_ternary(2, Ternary::Chosen);
    assert_eq!(s.get(2), Ternary::Chosen);
    assert_eq!(s.get(1), Ternary::Unknown);
    s.set(1, -7);
    assert_eq!(s.get(1), Ternary::Avoided);
    s.set_ternary(9, Ternary::Chosen);
    assert_eq!(s.size(), 4);
    assert_eq!(s.as_slice(), &[Ternary::Unknown, Ternary::Avoided, Ternary::Chosen, Ternary::Unknown]);
}

#[test]
fn ternary_round_trip() {
    for t in [Ternary::Avoided, Ternary::Unknown, Ternary::Chosen] {
        assert_eq!(Ternary::from_i8(t.as_i8()), t);
    }
    assert_eq!(Ternary::from_i8(i8::MIN), Ternary::Avoided);
    assert_eq!(Ternary::from_i8(i8::MAX), Ternary::Chosen);
}

#[test]
fn counts_partition_the_space() {
    let mut s = TernarySpace::new(7);
    s.set(0, -1);
    s.set(3, 1);
    s.set(4, -1);
    let total = s.count(Ternary::Avoided) + s.count(Ternary::Unknown) + s.count(Ternary::Chosen);
    assert_eq!(total, s.size());
    assert_eq!(s.positions_with(Ternary::Avoided).len(), s.count(Ternary::Avoided));
    assert_eq!(s.positions_with(Ternary::Unknown), vec![1, 2, 5, 6]);
}

#[test]
fn regions_cover_exactly_the_avoided_positions() {
    let mut s = TernarySpace::new(9);
    for p in [0, 1, 4, 7, 8] {
        s.set(p, -1);
    }
    let map = AvoidanceMap::from_space(&s);
    let regions = map.find_negative_regions();
    let spans: Vec<(usize, usize)> = regions.iter().map(|r| (r.start, r.end)).collect();
    assert_eq!(spans, vec![(0, 2), (4, 5), (7, 9)]);
    let covered: usize = regions.iter().map(|r| r.size).sum();
    assert_eq!(covered, s.count(Ternary::Avoided));
    assert_eq!(regions[2].right_boundary, None);
    assert_eq!(map.find_gaps(), vec![(2, 4), (5, 7)]);
}

#[test]
fn gaps_lie_between_avoidance() {
    let all_unknown = AvoidanceMap::new(3);
    assert!(all_unknown.find_gaps().is_empty());
    let mut s = TernarySpace::new(6);
    s.set(1, -1);
    s.set(4, -1);
    // [?, A, ?, ?, A, ?]: only the run between the two avoided positions is a gap
    assert_eq!(AvoidanceMap::from_space(&s).find_gaps(), vec![(2, 4)]);
    s.set(2, 1);
    assert_eq!(AvoidanceMap::from_space(&s).find_gaps(), vec![(3, 4)]);
}

#[test]
fn map_set_and_new() {
    let mut map = AvoidanceMap::new(3);
    map.set(1, -1);
    assert_eq!(map.space().get(1), Ternary::Avoided);
    assert_eq!(map.space().size(), 3);
    let regions = map.find_negative_regions();
    assert_eq!(regions.len(), 1);
    assert_eq!(regions[0].left_boundary, Some(Ternary::Unknown));
    assert!(map.find_gaps_between_regions(&regions).is_empty());
}

#[test]
fn region_distance_is_symmetric_and_zero_on_overlap() {
    let s = TernarySpace::new(10);
    let a = ternary_inference::NegativeRegion::new(1, 3, &s);
    let b = ternary_inference::NegativeRegion::new(6, 9, &s);
    let c = ternary_inference::NegativeRegion::new(2, 7, &s);
    assert_eq!(a.distance_to(&b), 3);
    assert_eq!(b.distance_to(&a), 3);
    assert_eq!(a.distance_to(&c), 0);
    assert!(!a.shares_boundary_type(&b) || a.right_boundary == b.left_boundary);
}

#[test]
fn similarity_is_exact_fraction() {
    let mut s = TernarySpace::new(8);
    s.set(0, -1);
    s.set(4, -1);
    s.set(5, 1);
    let sim = s.structural_similarity(0, 3, 4, 8);
    assert_eq!((sim.numerator(), sim.denominator()), (2, 3));
    let none = s.structural_similarity(5, 2, 0, 3);
    assert_eq!((none.numerator(), none.denominator()), (0, 1));
}

#[test]
fn accuracy_never_exceeds_one() {
    let mut v = FeedbackValidator::new();
    v.record_prediction(3, Ternary::Chosen, Ternary::Chosen);
    v.record_prediction(4, Ternary::Chosen, Ternary::Avoided);
    assert!(v.correct() <= v.total());
    let a = v.accuracy();
    assert_eq!((a.numerator(), a.denominator()), (1, 2));
    assert_eq!(v.records().to_vec(), vec![(3, Ternary::Chosen, Ternary::Chosen, true), (4, Ternary::Chosen, Ternary::Avoided, false)]);
    let none = v.accuracy_for_positions(&[9]);
    assert_eq!((none.numerator(), none.denominator()), (0, 1));
    let some = v.accuracy_for_positions(&[4, 3]);
    assert_eq!((some.numerator(), some.denominator()), (1, 2));
}

#[test]
fn ratio_comparisons_are_exact() {
    let a = Ratio::new(1, 3);
    let b = Ratio::new(2, 6);
    let c = Ratio::new(333_333_333_333_333_333, 1_000_000_000_000_000_000);
    assert!(a.at_least(&b) && b.at_least(&a));
    assert!(!a.exceeds(&b));
    assert!(a.exceeds(&c));
    assert!(Ratio::zero().at_least(&Ratio::new(0, 7)));
    let big = Ratio::new(u128::MAX - 1, u128::MAX);
    let bigger = Ratio::new(u128::MAX, u128::MAX);
    assert!(bigger.exceeds(&big));
    assert!(!big.at_least(&bigger));
}

#[test]
fn display_strings() {
    let mut s = TernarySpace::new(3);
    s.set(1, 1);
    assert_eq!(s.to_string(), "?\u{2713}?");
    assert_eq!(TernarySpace::new(0).to_string(), "");
}
