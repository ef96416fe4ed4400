use genesis::addr::{PAddr, VAddr};
use genesis::frame::{phys_to_virt, Frame, FrameRange, PAGE_SIZE, PHYS_MAP};
use genesis::page::Page;
use genesis::region::MemoryRegion;
use std::cmp::Ordering;

fn range(lo: u64, hi: u64) -> FrameRange {
    FrameRange::new(Frame::down(PAddr::from_u64(lo * 4096)), Frame::down(PAddr::from_u64(hi * 4096)))
}

#[test]
fn frame_rounding() {
    assert_eq!(Frame::up(PAddr::from_u64(0)).start_address().as_u64(), 0);
    assert_eq!(Frame::up(PAddr::from_u64(1)).start_address().as_u64(), 4096);
    assert_eq!(Frame::up(PAddr::from_u64(4096)).start_address().as_u64(), 4096);
    assert_eq!(Frame::up(PAddr::from_u64(4097)).start_address().as_u64(), 8192);
    assert_eq!(Frame::down(PAddr::from_u64(8191)).start_address().as_u64(), 4096);
    for a in [0u64, 1, 4095, 4096, 123_456_789] {
        let s = Frame::up(PAddr::from_u64(a)).start_address().as_u64();
        assert!(s >= a && s - a < PAGE_SIZE);
    }
}

#[test]
fn page_rounding() {
    assert_eq!(Page::up(VAddr::from_u64(4097)).start_address().as_u64(), 8192);
    assert_eq!(Page::down(VAddr::from_u64(8191)).start_address().as_u64(), 4096);
    assert_eq!(Page::down(VAddr::from_u64(8192)).sub(2).start_address().as_u64(), 0);
    assert_eq!(Page::down(VAddr::from_u64(0)).add(3).start_address().as_u64(), 3 * 4096);
}

#[test]
fn frame_arithmetic() {
    let f = Frame::down(PAddr::from_u64(10 * 4096));
    assert_eq!(f.add(5).start_address().as_u64(), 15 * 4096);
    assert_eq!(f.sub(10).start_address().as_u64(), 0);
}

#[test]
fn range_edits() {
    let mut r = range(10, 20);
    assert_eq!(r.nframes(), 10);
    r.trim_front(3);
    assert_eq!(r, range(13, 20));
    r.trim_back(2);
    assert_eq!(r, range(13, 18));
    r.push_front(13);
    assert_eq!(r, range(0, 18));
    r.push_back(2);
    assert_eq!(r, range(0, 20));
    assert_eq!(r.lower().start_address().as_u64(), 0);
    assert_eq!(r.upper().start_address().as_u64(), 20 * 4096);
}

#[test]
fn range_partial_order() {
    assert_eq!(range(1, 3).partial_cmp(&range(1, 3)), Some(Ordering::Equal));
    assert_eq!(range(1, 3).partial_cmp(&range(3, 5)), Some(Ordering::Less));
    assert_eq!(range(3, 5).partial_cmp(&range(1, 3)), Some(Ordering::Greater));
    assert_eq!(range(1, 4).partial_cmp(&range(3, 5)), None);
    assert_eq!(range(0, 10).partial_cmp(&range(3, 5)), None);
}

#[test]
fn trim_below_is_noop_outside() {
    let base = MemoryRegion::new(PAddr::from_u64(100), PAddr::from_u64(200));
    let mut r = base;
    r.trim_below(PAddr::from_u64(100));
    assert_eq!(r, base);
    r.trim_below(PAddr::from_u64(250));
    assert_eq!(r, base);
    r.trim_below(PAddr::from_u64(150));
    assert_eq!(r, MemoryRegion::new(PAddr::from_u64(150), PAddr::from_u64(200)));
}

#[test]
fn trim_above_is_noop_outside() {
    let base = MemoryRegion::new(PAddr::from_u64(100), PAddr::from_u64(200));
    let mut r = base;
    r.trim_above(PAddr::from_u64(50));
    assert_eq!(r, base);
    r.trim_above(PAddr::from_u64(200));
    assert_eq!(r, base);
    r.trim_above(PAddr::from_u64(120));
    assert_eq!(r, MemoryRegion::new(PAddr::from_u64(100), PAddr::from_u64(120)));
    assert!(!r.is_empty());
}

#[test]
fn linear_window_address() {
    assert_eq!(phys_to_virt(PAddr::from_u64(0x1000)).as_u64(), PHYS_MAP + 0x1000);
}
