use ternary_inference::{AvoidanceMap, Gap, Ternary, TernarySpace};

#[test]
fn test_find_negative_regions() {
    let mut s = TernarySpace::new(10);
    s.set(1, -1);
    s.set(2, -1);
    s.set(5, -1);
    s.set(6, -1);
    s.set(7, -1);
    let map = AvoidanceMap::from_space(&s);
    let regions = map.find_negative_regions();
    assert_eq!(regions.len(), 2);
    assert_eq!(regions[0].start, 1);
    assert_eq!(regions[0].end, 3);
    assert_eq!(regions[1].start, 5);
    assert_eq!(regions[1].end, 8);
}

#[test]
fn test_negative_region_boundaries() {
    let mut s = TernarySpace::new(10);
    s.set(0, 1);
    s.set(1, -1);
    s.set(2, -1);
    s.set(3, 1);
    let map = AvoidanceMap::from_space(&s);
    let regions = map.find_negative_regions();
    assert_eq!(regions.len(), 1);
    let r = &regions[0];
    assert_eq!(r.left_boundary, Some(Ternary::Chosen));
    assert_eq!(r.right_boundary, Some(Ternary::Chosen));
    assert_eq!(r.size, 2);
}

#[test]
fn test_region_at_edge() {
    let mut s = TernarySpace::new(5);
    s.set(0, -1);
    s.set(4, -1);
    let map = AvoidanceMap::from_space(&s);
    let regions = map.find_negative_regions();
    assert_eq!(regions.len(), 2);
    assert_eq!(regions[0].left_boundary, None);
    assert_eq!(regions[0].right_boundary, Some(Ternary::Unknown));
    assert_eq!(regions[1].left_boundary, Some(Ternary::Unknown));
    assert_eq!(regions[1].right_boundary, None);
}

#[test]
fn test_region_distance() {
    let mut s = TernarySpace::new(10);
    s.set(0, -1);
    s.set(1, -1);
    s.set(5, -1);
    s.set(6, -1);
    let map = AvoidanceMap::from_space(&s);
    let regions = map.find_negative_regions();
    assert_eq!(regions[0].distance_to(&regions[1]), 3);
}

#[test]
fn test_region_contains() {
    let mut s = TernarySpace::new(5);
    s.set(1, -1);
    s.set(2, -1);
    let map = AvoidanceMap::from_space(&s);
    let regions = map.find_negative_regions();
    assert!(regions[0].contains(1));
    assert!(regions[0].contains(2));
    assert!(!regions[0].contains(0));
    assert!(!regions[0].contains(3));
}

#[test]
fn test_find_gaps() {
    let mut s = TernarySpace::new(6);
    s.set(0, -1);
    s.set(1, 1);
    s.set(2, 0);
    s.set(3, 0);
    s.set(4, 0);
    s.set(5, -1);
    let map = AvoidanceMap::from_space(&s);
    let gaps = map.find_gaps();
    assert_eq!(gaps.len(), 1);
    assert_eq!(gaps[0], (2, 5));
}

#[test]
fn test_gaps_between_regions() {
    let mut s = TernarySpace::new(10);
    s.set(0, -1);
    s.set(1, -1);
    s.set(5, -1);
    s.set(6, -1);
    let map = AvoidanceMap::from_space(&s);
    let regions = map.find_negative_regions();
    let gaps = map.find_gaps_between_regions(&regions);
    assert_eq!(gaps.len(), 1);
    assert_eq!(gaps[0].start, 2);
    assert_eq!(gaps[0].end, 5);
    assert_eq!(gaps[0].size(), 3);
}

#[test]
fn test_gap_positions() {
    let gap = Gap { start: 3, end: 7, left_region: 0, right_region: 1 };
    assert_eq!(gap.positions(), vec![3, 4, 5, 6]);
    assert_eq!(gap.size(), 4);
    assert!(!gap.is_empty());
}

#[test]
fn test_shares_boundary_type() {
    let mut s = TernarySpace::new(15);
    s.set(0, 1);
    s.set(1, -1);
    s.set(2, -1);
    s.set(3, 1);
    s.set(4, 1);
    s.set(5, -1);
    s.set(6, -1);
    s.set(7, 1);
    let map = AvoidanceMap::from_space(&s);
    let regions = map.find_negative_regions();
    assert_eq!(regions.len(), 2);
    assert!(regions[0].shares_boundary_type(&regions[1]));
}
