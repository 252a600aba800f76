use customallocator::layout::{is_power_of_two, ranges_overlap, Layout};

#[test]
fn layout_accepts_power_of_two_alignment() {
    let l = Layout::from_size_align(24, 8).unwrap();
    assert_eq!(l.size(), 24);
    assert_eq!(l.align(), 8);
}

#[test]
fn layout_rejects_other_alignments() {
    assert!(Layout::from_size_align(24, 0).is_none());
    assert!(Layout::from_size_align(24, 3).is_none());
    assert!(Layout::from_size_align(24, 24).is_none());
    assert!(Layout::from_size_align(usize::MAX, 8).is_none());
}

#[test]
fn layout_size_is_bounded_by_the_signed_range() {
    let max = isize::MAX as usize;
    assert!(Layout::from_size_align(max, 1).is_some());
    assert!(Layout::from_size_align(max, 2).is_none());
    assert!(Layout::from_size_align(max - 7, 8).is_some());
    assert!(Layout::from_size_align(max - 6, 8).is_none());
    assert!(Layout::from_size_align(max + 1, 1).is_none());
    assert!(Layout::from_size_align(0, 1 << 20).is_some());
}

#[test]
fn ranges_overlap_test() {
    assert!(ranges_overlap(10, 5, 14, 1));
    assert!(!ranges_overlap(10, 5, 15, 1));
    assert!(!ranges_overlap(10, 5, 5, 5));
    assert!(ranges_overlap(10, 5, 5, 6));
    assert!(!ranges_overlap(10, 0, 5, 100));
    assert!(!ranges_overlap(10, 5, 12, 0));
    assert!(ranges_overlap(0, usize::MAX, usize::MAX - 1, 1));
}

#[test]
fn power_of_two_test() {
    assert!(is_power_of_two(1));
    assert!(is_power_of_two(4096));
    assert!(!is_power_of_two(0));
    assert!(!is_power_of_two(12));
}
