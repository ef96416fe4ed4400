use genesis::addr::{PAddr, VAddr};
use genesis::arena::FrameArena;
use genesis::boot::{
    build_runtime_table, create_runtime_pagetable, kernel_segments, map_stack, populate_allocator,
    DATA_FLAGS,
};
use genesis::frame::PHYS_MAP;
use genesis::region::{process_memory_map, region_table, MemoryDescriptor, MemoryKind, MemoryRegion};
use genesis::first_fit::FirstFitAllocator;
use genesis::frame::{Frame, FrameRange};
use genesis::page::Page;
use genesis::page_table::{MapError, PageTable, TableMemory, PT_G, PT_P, PT_PCD, PT_RW};

fn frame(num: u64) -> Frame {
    Frame::down(PAddr::from_u64(num * 4096))
}

fn range(lo: u64, hi: u64) -> FrameRange {
    FrameRange::new(frame(lo), frame(hi))
}

fn indices(va: u64) -> [usize; 4] {
    [
        ((va >> 39) & 0x1FF) as usize,
        ((va >> 30) & 0x1FF) as usize,
        ((va >> 21) & 0x1FF) as usize,
        ((va >> 12) & 0x1FF) as usize,
    ]
}

#[test]
fn map_builds_three_tables() {
    let mut arena = FrameArena::new(frame(0), 16);
    let mut space = [range(0, 0); 16];
    let mut allocator = FirstFitAllocator::new(&mut space);
    allocator.free_range_manual(range(1, 5));
    let table = PageTable::new(frame(0));
    let va: u64 = 0xFFFF_8000_1234_5000;
    let target = frame(9);
    let r = table.map(Page::down(VAddr::from_u64(va)), target, PT_P | PT_RW, &mut allocator, &mut arena);
    assert_eq!(r, Ok(()));
    let [i4, i3, i2, i1] = indices(va);
    assert_eq!(arena.read(frame(0), i4), 0x1000 | PT_P | PT_RW);
    assert_eq!(arena.read(frame(1), i3), 0x2000 | PT_P | PT_RW);
    assert_eq!(arena.read(frame(2), i2), 0x3000 | PT_P | PT_RW);
    assert_eq!(arena.read(frame(3), i1), 9 * 4096 | PT_P | PT_RW);
    // exactly three frames were consumed
    assert_eq!(allocator.allocate_manual(), Some(frame(4)));
    assert_eq!(allocator.allocate_manual(), None);
}

#[test]
fn map_twice_reports_already_mapped() {
    let mut arena = FrameArena::new(frame(0), 16);
    let mut space = [range(0, 0); 16];
    let mut allocator = FirstFitAllocator::new(&mut space);
    allocator.free_range_manual(range(1, 8));
    let table = PageTable::new(frame(0));
    let page = Page::down(VAddr::from_u64(0x40_0000));
    assert_eq!(table.map(page, frame(12), PT_P, &mut allocator, &mut arena), Ok(()));
    assert_eq!(
        table.map(page, frame(13), PT_P, &mut allocator, &mut arena),
        Err(MapError::AlreadyMapped)
    );
    // a neighbouring page reuses all three tables
    let next = Page::down(VAddr::from_u64(0x40_1000));
    assert_eq!(table.map(next, frame(13), PT_P, &mut allocator, &mut arena), Ok(()));
    assert_eq!(allocator.len(), 1);
    assert_eq!(allocator.entry(0), Some(range(4, 8)));
}

#[test]
fn map_without_frames_runs_out() {
    let mut arena = FrameArena::new(frame(0), 4);
    let mut space = [range(0, 0); 4];
    let mut allocator = FirstFitAllocator::new(&mut space);
    allocator.free_range_manual(range(1, 3));
    let table = PageTable::new(frame(0));
    let page = Page::down(VAddr::from_u64(0x7000));
    assert_eq!(
        table.map(page, frame(3), PT_P, &mut allocator, &mut arena),
        Err(MapError::OutOfFrames)
    );
}

#[test]
fn device_mapping_is_uncached() {
    let mut arena = FrameArena::new(frame(0), 8);
    let mut space = [range(0, 0); 8];
    let mut allocator = FirstFitAllocator::new(&mut space);
    allocator.free_range_manual(range(1, 8));
    let table = PageTable::new(frame(0));
    let va: u64 = 0x20_0000;
    assert_eq!(
        table.map_device(Page::down(VAddr::from_u64(va)), frame(0xFEE00), &mut allocator, &mut arena),
        Ok(())
    );
    let [_, _, _, i1] = indices(va);
    assert_eq!(arena.read(frame(3), i1), 0xFEE0_0000 | PT_P | PT_G | PT_RW | PT_PCD);
}

#[test]
fn arena_zero_clears_one_table() {
    let mut arena = FrameArena::new(frame(4), 2);
    arena.write(frame(4), 7, 99);
    arena.write(frame(5), 7, 42);
    arena.zero(frame(4));
    assert_eq!(arena.read(frame(4), 7), 0);
    assert_eq!(arena.read(frame(5), 7), 42);
}

#[test]
fn runtime_table_and_stack() {
    let mut arena = FrameArena::new(frame(0), 32);
    let mut space = [range(0, 0); 8];
    let mut allocator = FirstFitAllocator::new(&mut space);
    allocator.free_range_manual(range(0, 32));
    let (root, table) = create_runtime_pagetable(&mut allocator, &mut arena).unwrap();
    assert_eq!(root, frame(0));
    assert_eq!(table.root(), frame(0));
    let kbegin: u64 = 0xFFFF_FFFF_8010_0000;
    let top = map_stack(&table, VAddr::from_u64(kbegin), &mut allocator, &mut arena).unwrap();
    assert_eq!(top.as_u64(), kbegin);
    // the first stack frame is taken before the tables 2, 3 and 4
    for (k, f) in [(1u64, 1u64), (2, 5), (3, 6)] {
        let [_, _, _, i1] = indices(kbegin - k * 4096);
        assert_eq!(arena.read(frame(4), i1), f * 4096 | DATA_FLAGS);
    }
    let [_, _, _, guard] = indices(kbegin - 4 * 4096);
    assert_eq!(arena.read(frame(4), guard), 0);
}

#[test]
fn runtime_table_built_in_one_call() {
    let mut rmem = [MemoryRegion::new(PAddr::from_u64(0), PAddr::from_u64(0)); 4];
    let mut regions = region_table(&mut rmem);
    let descs = vec![MemoryDescriptor { base: 0x1000, length: 0x1F000, kind: MemoryKind::Ram }];
    process_memory_map(&descs, PAddr::from_u64(0x10_0000), PAddr::from_u64(0x18_0000), &mut regions);
    let off: u64 = 0xFFFF_FFFF_C000_0000;
    let segs = kernel_segments(off + 0x10_0000, off + 0x10_1000, off + 0x10_1000, off + 0x10_2000, off + 0x10_2000, off + 0x10_3000);
    let mut arena = FrameArena::new(frame(0), 32);
    let mut space = [range(0, 0); 8];
    let mut allocator = FirstFitAllocator::new(&mut space);
    populate_allocator(&regions, PAddr::from_u64(0x10_0000), &mut allocator);
    let (root, table, top) = build_runtime_table(
        &regions,
        segs,
        VAddr::from_u64(off + 0x10_0000),
        &mut allocator,
        &mut arena,
    )
    .unwrap();
    assert_eq!(root, frame(1));
    assert_eq!(table.root(), frame(1));
    assert_eq!(top.as_u64(), off + 0x10_0000);
    // frame 1 is the root; 2, 3, 4 the window's tables, so frame 5 sits at its slot
    let va = PHYS_MAP + 5 * 4096;
    assert_eq!(arena.read(frame(4), ((va >> 12) & 0x1FF) as usize), 5 * 4096 | DATA_FLAGS);
}

#[test]
fn stack_over_mapped_page_is_reported() {
    let mut arena = FrameArena::new(frame(0), 32);
    let mut space = [range(0, 0); 8];
    let mut allocator = FirstFitAllocator::new(&mut space);
    allocator.free_range_manual(range(0, 32));
    let (_, table) = create_runtime_pagetable(&mut allocator, &mut arena).unwrap();
    let kbegin: u64 = 0xFFFF_FFFF_8010_0000;
    let guard = Page::down(VAddr::from_u64(kbegin - 2 * 4096));
    assert_eq!(table.map(guard, frame(20), PT_P, &mut allocator, &mut arena), Ok(()));
    assert_eq!(
        map_stack(&table, VAddr::from_u64(kbegin), &mut allocator, &mut arena),
        Err(MapError::AlreadyMapped)
    );
}

#[test]
fn window_over_repeated_region_is_reported() {
    let mut rmem = [MemoryRegion::new(PAddr::from_u64(0), PAddr::from_u64(0)); 4];
    let mut regions = region_table(&mut rmem);
    let descs = vec![
        MemoryDescriptor { base: 0x40_0000, length: 0x2000, kind: MemoryKind::Ram },
        MemoryDescriptor { base: 0x40_1000, length: 0x2000, kind: MemoryKind::Ram },
    ];
    process_memory_map(&descs, PAddr::from_u64(0x10_0000), PAddr::from_u64(0x18_0000), &mut regions);
    let mut arena = FrameArena::new(frame(0), 8);
    let mut space = [range(0, 0); 8];
    let mut allocator = FirstFitAllocator::new(&mut space);
    allocator.free_range_manual(range(1, 8));
    let table = PageTable::new(frame(0));
    assert_eq!(
        genesis::boot::map_free_memory(&table, &regions, &mut allocator, &mut arena),
        Err(MapError::AlreadyMapped)
    );
}

#[test]
fn build_without_frames_runs_out() {
    let mut rmem = [MemoryRegion::new(PAddr::from_u64(0), PAddr::from_u64(0)); 4];
    let regions = region_table(&mut rmem);
    let off: u64 = 0xFFFF_FFFF_C000_0000;
    let segs = kernel_segments(off + 0x10_0000, off + 0x10_1000, off + 0x10_1000, off + 0x10_2000, off + 0x10_2000, off + 0x10_3000);
    let mut arena = FrameArena::new(frame(0), 4);
    let mut space = [range(0, 0); 4];
    let mut allocator = FirstFitAllocator::new(&mut space);
    let r = build_runtime_table(&regions, segs, VAddr::from_u64(off + 0x10_0000), &mut allocator, &mut arena);
    assert_eq!(r.err(), Some(MapError::OutOfFrames));
}
