use lib::frame_vec::{FrameRange, FrameVec};

fn ranges(frames: &FrameVec) -> Vec<(u64, u64)> {
    frames.descriptors().iter().map(|r| (r.start, r.count)).collect()
}

#[test]
fn frame_range_overlap_and_merge() {
    let a = FrameRange::new(10, 5);
    let b = FrameRange::new(14, 3);
    let c = FrameRange::new(15, 2);
    let empty = FrameRange::new(12, 0);
    assert!(a.overlaps(b));
    assert!(!a.overlaps(c));
    assert!(!a.overlaps(empty));
    assert_eq!(a.end_exclusive(), 15);
    let merged = a.merge(c).unwrap();
    assert_eq!((merged.start, merged.count), (10, 7));
    assert!(a.merge(FrameRange::new(16, 1)).is_none());
    assert!(empty.is_empty());
}

#[test]
fn frame_range_partition() {
    let region = FrameRange::new(10, 10);
    let (lower, overlap, upper) = region.partition_with(FrameRange::new(12, 3));
    assert_eq!((lower.start, lower.count), (10, 2));
    assert_eq!((overlap.start, overlap.count), (12, 3));
    assert_eq!((upper.start, upper.count), (15, 5));
}

#[test]
fn add_region_merges_neighbours() {
    let mut frames = FrameVec::new();
    frames.add_region(FrameRange::new(20, 5));
    frames.add_region(FrameRange::new(0, 5));
    assert_eq!(ranges(&frames), vec![(0, 5), (20, 5)]);
    frames.add_region(FrameRange::new(5, 15));
    assert_eq!(ranges(&frames), vec![(0, 25)]);
    frames.add_region(FrameRange::new(3, 4));
    assert_eq!(ranges(&frames), vec![(0, 25)]);
}

#[test]
fn remove_region_shrinks_and_splits() {
    let mut frames = FrameVec::new();
    frames.add_region(FrameRange::new(0, 10));
    frames.remove_region(FrameRange::new(0, 2));
    assert_eq!(ranges(&frames), vec![(2, 8)]);
    frames.remove_region(FrameRange::new(8, 2));
    assert_eq!(ranges(&frames), vec![(2, 6)]);
    frames.remove_region(FrameRange::new(4, 2));
    assert_eq!(ranges(&frames), vec![(2, 2), (6, 2)]);
    frames.remove_region(FrameRange::new(6, 2));
    assert_eq!(ranges(&frames), vec![(2, 2)]);
    frames.remove_region(FrameRange::new(100, 0));
    assert_eq!(ranges(&frames), vec![(2, 2)]);
}

#[test]
fn contains_region_across_regions() {
    let mut frames = FrameVec::new();
    frames.add_region(FrameRange::new(0, 4));
    frames.add_region(FrameRange::new(6, 4));
    assert!(frames.contains_region(FrameRange::new(1, 3)));
    assert!(frames.contains_region(FrameRange::new(6, 4)));
    assert!(!frames.contains_region(FrameRange::new(2, 6)));
    assert!(!frames.contains_region(FrameRange::new(10, 1)));
    assert!(frames.contains_region(FrameRange::new(50, 0)));
}

#[test]
fn add_then_remove_restores() {
    let mut frames = FrameVec::new();
    frames.add_region(FrameRange::new(0, 4));
    let before = ranges(&frames);
    frames.add_region(FrameRange::new(10, 3));
    assert!(frames.contains_region(FrameRange::new(10, 3)));
    frames.remove_region(FrameRange::new(10, 3));
    assert_eq!(ranges(&frames), before);
}

#[test]
fn new_frame_vec_and_empty_ranges() {
    let mut frames = FrameVec::new();
    assert!(frames.descriptors().is_empty());
    frames.add_region(FrameRange::new(7, 0));
    assert!(frames.descriptors().is_empty());
    frames.add_region(FrameRange::new(0, 10));
    frames.remove_region(FrameRange::new(3, 2));
    assert_eq!(ranges(&frames), vec![(0, 3), (5, 5)]);
}
