use genesis::addr::PAddr;
use genesis::allocator::FrameAllocator;
use genesis::first_fit::FirstFitAllocator;
use genesis::frame::{Frame, FrameRange};

fn frame(num: u64) -> Frame {
    Frame::down(PAddr::from_u64(num * 4096))
}

fn create_range(start_page: u64, nframes: u64) -> FrameRange {
    FrameRange::new(frame(start_page), frame(start_page + nframes))
}

fn spans(a: &FirstFitAllocator) -> Vec<(u64, u64)> {
    let mut out = Vec::new();
    for i in 0..a.len() {
        let r = a.entry(i).unwrap();
        out.push((r.lower().start_address().as_u64() / 4096, r.upper().start_address().as_u64() / 4096));
    }
    out
}

#[test]
fn test_simple() {
    let mut space = [create_range(0, 0); 256];
    let mut allocator = FirstFitAllocator::new(&mut space);
    let r = create_range(0, 1);
    allocator.free_range_manual(r);
    assert_eq!(allocator.allocate_range_manual(1).unwrap(), r);
}

#[test]
fn test_prev_coalesce() {
    let mut space = [create_range(0, 0); 256];
    let mut allocator = FirstFitAllocator::new(&mut space);
    allocator.free_range_manual(create_range(0, 1));
    allocator.free_range_manual(create_range(1, 1));
    assert_eq!(allocator.allocate_range_manual(2).unwrap(), create_range(0, 2));
}

#[test]
fn test_next_coalesce() {
    let mut space = [create_range(0, 0); 256];
    let mut allocator = FirstFitAllocator::new(&mut space);
    allocator.free_range_manual(create_range(1, 1));
    allocator.free_range_manual(create_range(0, 1));
    assert_eq!(allocator.allocate_range_manual(2).unwrap(), create_range(0, 2));
}

#[test]
fn test_both_coalesce() {
    let mut space = [create_range(0, 0); 256];
    let mut allocator = FirstFitAllocator::new(&mut space);
    allocator.free_range_manual(create_range(0, 1));
    allocator.free_range_manual(create_range(2, 1));
    allocator.free_range_manual(create_range(1, 1));
    assert_eq!(allocator.allocate_range_manual(3).unwrap(), create_range(0, 3));
}

#[test]
fn single_frame_then_empty() {
    let mut space = [create_range(0, 0); 256];
    let mut allocator = FirstFitAllocator::new(&mut space);
    allocator.free_range_manual(create_range(0, 1));
    assert_eq!(allocator.allocate_manual(), Some(frame(0)));
    assert_eq!(allocator.allocate_manual(), None);
}

#[test]
fn empty_allocator_gives_nothing() {
    let mut space = [create_range(0, 0); 4];
    let mut allocator = FirstFitAllocator::new(&mut space);
    assert_eq!(allocator.allocate_range_manual(1), None);
    assert_eq!(allocator.allocate_manual(), None);
}

#[test]
fn first_fit_takes_leftmost_large_enough() {
    let mut space = [create_range(0, 0); 256];
    let mut allocator = FirstFitAllocator::new(&mut space);
    allocator.free_range_manual(create_range(0, 1));
    allocator.free_range_manual(create_range(10, 5));
    allocator.free_range_manual(create_range(20, 2));
    // the 2-frame request skips the single frame and splits the 5-frame range
    assert_eq!(allocator.allocate_range_manual(2).unwrap(), create_range(10, 2));
    assert_eq!(spans(&allocator), vec![(0, 1), (12, 15), (20, 22)]);
    // exact fit removes the entry
    assert_eq!(allocator.allocate_range_manual(3).unwrap(), create_range(12, 3));
    assert_eq!(spans(&allocator), vec![(0, 1), (20, 22)]);
    assert_eq!(allocator.allocate_range_manual(3), None);
}

#[test]
fn frees_covering_an_interval_coalesce_to_one_entry() {
    let mut space = [create_range(0, 0); 256];
    let mut allocator = FirstFitAllocator::new(&mut space);
    for start in [6u64, 0, 9, 3, 2, 7] {
        let len = match start {
            6 => 1,
            0 => 2,
            9 => 3,
            3 => 3,
            2 => 1,
            _ => 2,
        };
        allocator.free_range_manual(create_range(start, len));
    }
    assert_eq!(spans(&allocator), vec![(0, 12)]);
}

#[test]
fn free_into_full_list_is_dropped() {
    let mut space = [create_range(0, 0); 2];
    let mut allocator = FirstFitAllocator::new(&mut space);
    allocator.free_range_manual(create_range(0, 1));
    allocator.free_range_manual(create_range(10, 1));
    allocator.free_range_manual(create_range(5, 1));
    assert_eq!(spans(&allocator), vec![(0, 1), (10, 11)]);
    // touching ranges still merge into a full list
    allocator.free_range_manual(create_range(1, 2));
    assert_eq!(spans(&allocator), vec![(0, 3), (10, 11)]);
}

#[test]
fn middle_insert_takes_last_slot() {
    let mut space = [create_range(0, 0); 3];
    let mut allocator = FirstFitAllocator::new(&mut space);
    allocator.free_range_manual(create_range(0, 1));
    allocator.free_range_manual(create_range(10, 1));
    allocator.free_range_manual(create_range(5, 1));
    assert_eq!(spans(&allocator), vec![(0, 1), (5, 6), (10, 11)]);
}

#[test]
fn empty_range_free_changes_nothing() {
    let mut space = [create_range(0, 0); 8];
    let mut allocator = FirstFitAllocator::new(&mut space);
    allocator.free_range_manual(create_range(4, 0));
    assert_eq!(allocator.len(), 0);
}

#[test]
fn trait_calls_reach_first_fit() {
    let mut space = [create_range(0, 0); 8];
    let mut allocator = FirstFitAllocator::new(&mut space);
    FrameAllocator::free_range_manual(&mut allocator, create_range(3, 2));
    FrameAllocator::free_manual(&mut allocator, frame(5));
    assert_eq!(spans(&allocator), vec![(3, 6)]);
    assert_eq!(FrameAllocator::allocate_manual(&mut allocator), Some(frame(3)));
    assert_eq!(
        FrameAllocator::allocate_range_manual(&mut allocator, 2),
        Some(create_range(4, 2))
    );
    assert_eq!(allocator.len(), 0);
}

#[test]
fn overlapping_range_is_not_releasable() {
    let mut space = [create_range(0, 0); 8];
    let mut allocator = FirstFitAllocator::new(&mut space);
    allocator.free_range_manual(create_range(4, 4));
    assert!(!allocator.is_releasable(&create_range(4, 4)));
    assert!(!allocator.is_releasable(&create_range(2, 3)));
    assert!(!allocator.is_releasable(&create_range(7, 3)));
    assert!(allocator.is_releasable(&create_range(0, 4)));
    assert!(allocator.is_releasable(&create_range(8, 1)));
    assert!(!allocator.is_releasable(&create_range(5, 0)));
    assert!(allocator.is_releasable(&create_range(8, 0)));
}
