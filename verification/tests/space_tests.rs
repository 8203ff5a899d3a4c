use ternary_inference::{Ratio, Ternary, TernarySpace};

fn as_f64(r: Ratio) -> f64 {
    r.numerator() as f64 / r.denominator() as f64
}

#[test]
fn test_ternary_from_i8() {
    assert_eq!(Ternary::from_i8(-1), Ternary::Avoided);
    assert_eq!(Ternary::from_i8(0), Ternary::Unknown);
    assert_eq!(Ternary::from_i8(1), Ternary::Chosen);
    assert_eq!(Ternary::from_i8(-5), Ternary::Avoided);
    assert_eq!(Ternary::from_i8(5), Ternary::Chosen);
}

#[test]
fn test_ternary_predicates() {
    assert!(Ternary::Avoided.is_avoided());
    assert!(!Ternary::Avoided.is_unknown());
    assert!(Ternary::Unknown.is_unknown());
    assert!(Ternary::Chosen.is_chosen());
}

#[test]
fn test_ternary_display() {
    assert_eq!(Ternary::Avoided.to_string(), "✗");
    assert_eq!(Ternary::Unknown.to_string(), "?");
    assert_eq!(Ternary::Chosen.to_string(), "✓");
}

#[test]
fn test_space_new() {
    let s = TernarySpace::new(10);
    assert_eq!(s.size(), 10);
    assert_eq!(s.count(Ternary::Unknown), 10);
    assert_eq!(s.count(Ternary::Avoided), 0);
}

#[test]
fn test_space_set_get() {
    let mut s = TernarySpace::new(5);
    s.set(0, -1);
    s.set(2, 1);
    s.set(4, 0);
    assert_eq!(s.get(0), Ternary::Avoided);
    assert_eq!(s.get(1), Ternary::Unknown);
    assert_eq!(s.get(2), Ternary::Chosen);
    assert_eq!(s.get(3), Ternary::Unknown);
    assert_eq!(s.get(4), Ternary::Unknown);
}

#[test]
fn test_space_out_of_bounds() {
    let mut s = TernarySpace::new(3);
    s.set(10, 1);
    assert_eq!(s.get(10), Ternary::Unknown);
}

#[test]
fn test_positions_with() {
    let mut s = TernarySpace::new(6);
    s.set(1, -1);
    s.set(2, -1);
    s.set(4, 1);
    assert_eq!(s.positions_with(Ternary::Avoided), vec![1, 2]);
    assert_eq!(s.positions_with(Ternary::Chosen), vec![4]);
}

#[test]
fn test_space_display() {
    let mut s = TernarySpace::new(5);
    s.set(0, -1);
    s.set(2, 1);
    assert_eq!(s.to_string(), "✗?✓??");
}

#[test]
fn test_structural_similarity() {
    let mut s = TernarySpace::new(10);
    s.set(0, -1);
    s.set(1, -1);
    s.set(2, 0);
    s.set(5, -1);
    s.set(6, -1);
    s.set(7, 0);
    let sim = s.structural_similarity(0, 3, 5, 8);
    assert!((as_f64(sim) - 1.0).abs() < 1e-9);
}
