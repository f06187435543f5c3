use josaa_orcr::RankRange;

#[test]
fn rank_range_is_empty() {
    // Empty
    assert!(RankRange::default().is_empty());
    assert!(RankRange::new(12, 4).is_empty());
    assert!(RankRange::new(112, 48).is_empty());

    // Not empty
    assert!(!RankRange::new(4, 40).is_empty());
    assert!(!RankRange::new(9, 12).is_empty());
}

#[test]
fn rank_range_contains() {
    let range = RankRange::new(4, 12);

    // In range
    assert!(range.contains(4));
    assert!(range.contains(12));
    assert!(range.contains(6));
    assert!(range.contains(7));

    // Out of range
    assert!(!range.contains(3));
    assert!(!range.contains(13));
    assert!(!range.contains(20));
    assert!(!range.contains(1));
}

#[test]
fn rank_range_equality() {
    // Equal bounds
    assert_eq!(RankRange::new(4, 12), RankRange::new(4, 12));
    assert_eq!(RankRange::new(44, 56), RankRange::new(44, 56));

    // Unequal bounds
    assert_ne!(RankRange::new(12, 24), RankRange::new(12, 23));
    assert_ne!(RankRange::new(12, 24), RankRange::new(12, 27));

    // Both empty
    assert_eq!(RankRange::default(), RankRange::new(6, 4));
    assert_eq!(RankRange::new(12, 8), RankRange::new(83, 40));

    // Only one empty
    assert_ne!(RankRange::new(12, 24), RankRange::default());
    assert_ne!(RankRange::new(24, 12), RankRange::new(83, 123));
}

#[test]
fn rank_range_iter() {
    // Empty
    let mut iter = RankRange::default();

    assert_eq!(iter.next(), None);
    assert_eq!(iter.next(), None);

    let mut iter = RankRange::new(24, 12);

    assert_eq!(iter.next(), None);
    assert_eq!(iter.next(), None);

    // Non-empty
    let mut iter = RankRange::new(12, 15);

    assert_eq!(iter.next(), Some(12));
    assert_eq!(iter.next(), Some(13));
    assert_eq!(iter.next(), Some(14));
    assert_eq!(iter.next(), Some(15));
    assert_eq!(iter.next(), None);
    assert_eq!(iter.next(), None);
}

#[test]
fn rank_range_bounds_and_neighbours() {
    let r = RankRange::new(10, 20);
    assert!(r.contains(10));
    assert!(r.contains(20));
    assert!(!r.contains(9));
    assert!(!r.contains(21));

    let single = RankRange::new(7, 7);
    assert!(single.contains(7));
    assert!(!single.contains(6));
    assert!(!single.contains(8));
}

#[test]
fn rank_range_empty_contains_nothing() {
    let r = RankRange::new(5, 4);
    assert!(!r.contains(4));
    assert!(!r.contains(5));
    assert!(!RankRange::default().contains(3));
    assert!(!RankRange::default().contains(4));
}

#[test]
fn rank_range_iter_at_top_of_u32() {
    let mut r = RankRange::new(u32::MAX - 1, u32::MAX);
    assert_eq!(r.next(), Some(u32::MAX - 1));
    assert_eq!(r.next(), Some(u32::MAX));
    assert_eq!(r.next(), None);
    assert_eq!(r.next(), None);
    assert!(r.is_empty());
}

#[test]
fn rank_range_iteration_leaves_copy_untouched() {
    let bounds = RankRange::new(1, 3);
    let mut walker = bounds;
    let mut seen = Vec::new();
    while let Some(v) = walker.next() {
        seen.push(v);
    }
    assert_eq!(seen, vec![1, 2, 3]);
    assert_eq!(bounds.start, 1);
    assert_eq!(bounds.end, 3);
}

#[test]
fn rank_range_editing_limits() {
    let bounds = RankRange::new(0, 900);
    let state = RankRange::new(100, 200);

    let start = state.start_limits(&bounds);
    assert_eq!((start.start, start.end), (0, 199));

    let end = state.end_limits(&bounds);
    assert_eq!((end.start, end.end), (101, 900));

    let at_zero = RankRange::new(0, 0);
    let start = at_zero.start_limits(&bounds);
    assert_eq!((start.start, start.end), (0, 0));

    let at_top = RankRange::new(u32::MAX, u32::MAX);
    let end = at_top.end_limits(&RankRange::new(0, u32::MAX));
    assert_eq!((end.start, end.end), (u32::MAX, u32::MAX));
}
