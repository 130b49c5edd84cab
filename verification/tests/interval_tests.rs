use rvab::math_support::{check_any_overlaps, check_interval_state, Interval, IntervalState};

fn relate(a: (u64, u64), b: (u64, u64)) -> IntervalState {
    check_interval_state(&Interval::new(a.0, a.1), &Interval::new(b.0, b.1))
}

#[test]
fn interval_keeps_its_bounds() {
    let a = Interval::new(3, 9);
    assert_eq!(a.get_start(), 3);
    assert_eq!(a.get_end(), 9);
    assert!(a == Interval::new(3, 9));
    assert!(a != Interval::new(3, 10));
}

#[test]
fn classify_disjoint_and_equal() {
    assert_eq!(relate((0, 4), (5, 9)), IntervalState::Disjoint);
    assert_eq!(relate((5, 9), (0, 4)), IntervalState::Disjoint);
    assert_eq!(relate((0, 4), (0, 4)), IntervalState::Equal);
}

#[test]
fn classify_touching_intervals_overlap() {
    assert_eq!(relate((0, 5), (5, 9)), IntervalState::Overlap);
    assert_eq!(relate((5, 9), (0, 5)), IntervalState::Overlap);
    assert_eq!(relate((0, 6), (4, 9)), IntervalState::Overlap);
}

#[test]
fn classify_subset_and_superset_are_mirrored() {
    assert_eq!(relate((2, 3), (0, 9)), IntervalState::Subset);
    assert_eq!(relate((0, 9), (2, 3)), IntervalState::Superset);
    assert_eq!(relate((0, 3), (0, 9)), IntervalState::Subset);
    assert_eq!(relate((0, 9), (4, 9)), IntervalState::Superset);
}

#[test]
fn classify_single_sector_intervals() {
    assert_eq!(relate((7, 7), (7, 7)), IntervalState::Equal);
    assert_eq!(relate((7, 7), (8, 8)), IntervalState::Disjoint);
    assert_eq!(relate((7, 7), (0, 7)), IntervalState::Subset);
}

#[test]
fn overlap_detection_sorts_and_finds() {
    let mut v = vec![Interval::new(10, 20), Interval::new(0, 5), Interval::new(6, 9)];
    assert!(!check_any_overlaps(&mut v));
    assert_eq!(v[0].get_start(), 0);
    assert_eq!(v[1].get_start(), 6);
    assert_eq!(v[2].get_start(), 10);
    v.push(Interval::new(7, 8));
    assert!(check_any_overlaps(&mut v));
}

#[test]
fn overlap_detection_on_few_intervals() {
    let mut none: Vec<Interval> = Vec::new();
    assert!(!check_any_overlaps(&mut none));
    let mut one = vec![Interval::new(4, 4)];
    assert!(!check_any_overlaps(&mut one));
}

#[test]
fn duplicate_interval_overlaps() {
    let mut v = vec![Interval::new(0, 5), Interval::new(6, 9), Interval::new(0, 5)];
    assert!(check_any_overlaps(&mut v));
}

#[test]
fn distant_overlap_is_found_after_sorting() {
    let mut v = vec![
        Interval::new(100, 200),
        Interval::new(0, 10),
        Interval::new(50, 60),
        Interval::new(150, 160),
    ];
    assert!(check_any_overlaps(&mut v));
    let starts: Vec<u64> = v.iter().map(|i| i.get_start()).collect();
    assert_eq!(starts, vec![0, 50, 100, 150]);
}
