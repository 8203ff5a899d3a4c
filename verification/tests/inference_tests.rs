use ternary_inference::{
    AvoidanceMap, DeductionEngine, FeedbackValidator, Gap, Inference, InferenceRule, InferenceType, Ratio,
    Ternary, TernarySpace,
};

fn as_f64(r: Ratio) -> f64 {
    r.numerator() as f64 / r.denominator() as f64
}

#[test]
fn test_engine_infer() {
    let mut s = TernarySpace::new(15);
    s.set(0, -1);
    s.set(1, -1);
    s.set(2, -1);
    s.set(8, -1);
    s.set(9, -1);
    s.set(10, -1);
    let map = AvoidanceMap::from_space(&s);
    let engine = DeductionEngine::new();
    let deductions = engine.infer_from_map(&map);
    assert!(!deductions.is_empty(), "Should produce some deductions");
    for d in &deductions {
        assert!(d.position < s.size());
    }
}

#[test]
fn test_engine_single_region() {
    let mut s = TernarySpace::new(10);
    s.set(0, 0);
    s.set(1, -1);
    s.set(2, -1);
    let map = AvoidanceMap::from_space(&s);
    let engine = DeductionEngine::new();
    let deductions = engine.infer_from_map(&map);
    assert_eq!(deductions.len(), 1);
    assert_eq!(deductions[0].position, 0);
}

#[test]
fn test_engine_no_regions() {
    let s = TernarySpace::new(10);
    let map = AvoidanceMap::from_space(&s);
    let engine = DeductionEngine::new();
    let deductions = engine.infer_from_map(&map);
    assert!(deductions.is_empty());
}

#[test]
fn test_analogy_rule() {
    let mut s = TernarySpace::new(15);
    s.set(0, 1);
    s.set(1, -1);
    s.set(2, -1);
    s.set(3, 1);
    s.set(4, 0);
    s.set(5, 0);
    s.set(6, 1);
    s.set(7, -1);
    s.set(8, -1);
    s.set(9, 1);
    let map = AvoidanceMap::from_space(&s);
    let regions = map.find_negative_regions();
    let gaps = map.find_gaps_between_regions(&regions);
    assert_eq!(gaps.len(), 1);
    let result = InferenceRule::analogy(&regions, &gaps[0]);
    assert!(result.is_some());
    let inf = result.unwrap();
    assert_eq!(inf.predicted, Ternary::Avoided);
    assert_eq!(inf.inference_type, InferenceType::Analogy);
}

#[test]
fn test_exclusion_rule() {
    let mut s = TernarySpace::new(10);
    s.set(0, -1);
    s.set(1, -1);
    s.set(2, -1);
    s.set(3, -1);
    s.set(4, -1);
    s.set(5, -1);
    let gap = Gap { start: 2, end: 4, left_region: 0, right_region: 1 };
    let result = InferenceRule::exclusion(&s, &gap);
    assert!(result.is_some());
    assert_eq!(result.unwrap().inference_type, InferenceType::Exclusion);
}

#[test]
fn test_confidence_threshold() {
    let mut s = TernarySpace::new(20);
    s.set(0, -1);
    s.set(1, -1);
    s.set(2, -1);
    s.set(10, -1);
    s.set(11, -1);
    s.set(12, -1);
    let map = AvoidanceMap::from_space(&s);

    let high_engine = DeductionEngine::with_confidence(Ratio::new(9, 10));
    let low_engine = DeductionEngine::with_confidence(Ratio::new(1, 10));

    let high = high_engine.infer_from_map(&map);
    let low = low_engine.infer_from_map(&map);
    assert!(low.len() >= high.len(), "Lower threshold should produce >= deductions");
}

#[test]
fn test_full_pipeline() {
    let mut space = TernarySpace::new(20);
    space.set(1, -1);
    space.set(2, -1);
    space.set(3, -1);
    space.set(12, -1);
    space.set(13, -1);
    space.set(14, -1);
    space.set(0, 1);
    space.set(18, 1);

    let map = AvoidanceMap::from_space(&space);
    let regions = map.find_negative_regions();
    assert_eq!(regions.len(), 2);

    let engine = DeductionEngine::new();
    let deductions = engine.infer_from_map(&map);

    let mut validator = FeedbackValidator::new();
    for d in &deductions {
        validator.record(d, space.get(d.position));
    }

    assert!(validator.total() > 0);
    assert!(as_f64(validator.accuracy()) >= 0.0);
}

#[test]
fn test_validator_accuracy() {
    let mut v = FeedbackValidator::new();
    let inf = Inference {
        position: 0,
        predicted: Ternary::Avoided,
        inference_type: InferenceType::Analogy,
        confidence: Ratio::new(8, 10),
        reason: "test".into(),
    };
    v.record(&inf, Ternary::Avoided);
    v.record(&inf, Ternary::Chosen);
    v.record(&inf, Ternary::Avoided);
    assert_eq!(v.total(), 3);
    assert_eq!(v.correct(), 2);
    assert!((as_f64(v.accuracy()) - 2.0 / 3.0).abs() < 1e-9);
}

#[test]
fn test_validator_empty() {
    let v = FeedbackValidator::new();
    assert_eq!(as_f64(v.accuracy()), 0.0);
    assert_eq!(v.total(), 0);
}

#[test]
fn test_validator_reset() {
    let mut v = FeedbackValidator::new();
    v.record_prediction(0, Ternary::Avoided, Ternary::Avoided);
    assert_eq!(v.total(), 1);
    v.reset();
    assert_eq!(v.total(), 0);
    assert_eq!(as_f64(v.accuracy()), 0.0);
}

#[test]
fn test_record_prediction() {
    let mut v = FeedbackValidator::new();
    v.record_prediction(0, Ternary::Chosen, Ternary::Chosen);
    v.record_prediction(1, Ternary::Avoided, Ternary::Unknown);
    assert_eq!(v.correct(), 1);
    assert_eq!(v.total(), 2);
}

#[test]
fn test_accuracy_for_positions() {
    let mut v = FeedbackValidator::new();
    v.record_prediction(0, Ternary::Avoided, Ternary::Avoided);
    v.record_prediction(1, Ternary::Chosen, Ternary::Unknown);
    v.record_prediction(2, Ternary::Avoided, Ternary::Avoided);
    assert!((as_f64(v.accuracy_for_positions(&[0, 2])) - 1.0).abs() < 1e-9);
    assert!((as_f64(v.accuracy_for_positions(&[1])) - 0.0).abs() < 1e-9);
}
