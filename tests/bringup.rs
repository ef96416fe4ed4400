use genesis::addr::PAddr;
use genesis::boot::{
    free_boot_memory, free_upper_memory, kernel_segments, map_free_memory, map_kernel,
    populate_allocator, spans_apart, DATA_FLAGS, RODATA_FLAGS, TEXT_FLAGS,
};
use genesis::arena::FrameArena;
use genesis::cpu::{
    apic_base_address, apic_base_enabled, cr0_with_fpu, cr4_with_fxsr, cr4_with_pge,
    efer_with_nx, efer_with_syscall, gdt_entries, idt_entries, interrupt_gate, star_value,
    vector_has_gate,
};
use genesis::first_fit::FirstFitAllocator;
use genesis::frame::{Frame, FrameRange, PHYS_MAP};
use genesis::log::{log, Level, Location};
use genesis::page_table::{PageTable, TableMemory};
use genesis::region::{
    kernel_image, process_memory_map, region_table, regions_of, MemoryDescriptor, MemoryKind,
    MemoryRegion,
};
use genesis::stage::BootState;

fn frame(num: u64) -> Frame {
    Frame::down(PAddr::from_u64(num * 4096))
}

fn range(lo: u64, hi: u64) -> FrameRange {
    FrameRange::new(frame(lo), frame(hi))
}

fn region(start: u64, end: u64) -> MemoryRegion {
    MemoryRegion::new(PAddr::from_u64(start), PAddr::from_u64(end))
}

fn spans(a: &FirstFitAllocator) -> Vec<(u64, u64)> {
    let mut out = Vec::new();
    for i in 0..a.len() {
        let r = a.entry(i).unwrap();
        out.push((r.lower().start_address().as_u64() / 4096, r.upper().start_address().as_u64() / 4096));
    }
    out
}

#[test]
fn region_straddling_kernel_keeps_part_above() {
    let mut mem = [region(0, 0); 256];
    let mut table = region_table(&mut mem);
    let descs = vec![MemoryDescriptor { base: 0, length: 0x20_0000, kind: MemoryKind::Ram }];
    process_memory_map(&descs, PAddr::from_u64(0x10_0000), PAddr::from_u64(0x18_0000), &mut table);
    assert_eq!(regions_of(&table), vec![region(0x18_0000, 0x20_0000)]);
}

#[test]
fn discovery_skips_unusable_and_empty_and_overflow() {
    let mut mem = [region(0, 0); 2];
    let mut table = region_table(&mut mem);
    let descs = vec![
        MemoryDescriptor { base: 0, length: 0x9_F000, kind: MemoryKind::Ram },
        MemoryDescriptor { base: 0x9_F000, length: 0x1000, kind: MemoryKind::Unusable },
        MemoryDescriptor { base: 0x10_0000, length: 0, kind: MemoryKind::Ram },
        MemoryDescriptor { base: 0x20_0000, length: 0x10_0000, kind: MemoryKind::Ram },
        MemoryDescriptor { base: 0x40_0000, length: 0x10_0000, kind: MemoryKind::Ram },
    ];
    process_memory_map(&descs, PAddr::from_u64(0x10_0000), PAddr::from_u64(0x18_0000), &mut table);
    assert_eq!(regions_of(&table), vec![region(0, 0x9_F000), region(0x20_0000, 0x30_0000)]);
}

#[test]
fn kernel_image_bounds() {
    let (b, e) = kernel_image(0xFFFF_FFFF_C010_0123, 0xFFFF_FFFF_C018_0001);
    assert_eq!(b.as_u64(), 0x10_0000);
    assert_eq!(e.as_u64(), 0x18_1000);
}

#[test]
fn seeding_cuts_at_window_and_loader() {
    let mut mem = [region(0, 0); 8];
    let mut table = region_table(&mut mem);
    let descs = vec![
        MemoryDescriptor { base: 0x1000, length: 0x9_E000, kind: MemoryKind::Ram },
        MemoryDescriptor { base: 0x20_0000, length: 0x7FE0_0000, kind: MemoryKind::Ram },
    ];
    process_memory_map(&descs, PAddr::from_u64(0x10_0000), PAddr::from_u64(0x18_0000), &mut table);
    let mut space = [range(0, 0); 16];
    let mut allocator = FirstFitAllocator::new(&mut space);
    populate_allocator(&table, PAddr::from_u64(0x30_0000), &mut allocator);
    assert_eq!(spans(&allocator), vec![(1, 0x9F), (0x200, 0x300)]);
    free_boot_memory(PAddr::from_u64(0x30_0000), PAddr::from_u64(0x10_0000 + 0x30_0000), &mut allocator);
    assert_eq!(spans(&allocator), vec![(1, 0x9F), (0x200, 0x400)]);
    free_upper_memory(&table, &mut allocator);
    assert_eq!(spans(&allocator), vec![(1, 0x9F), (0x200, 0x400), (0x4_0000, 0x8_0000)]);
}

#[test]
fn window_maps_every_region_frame() {
    let mut mem = [region(0, 0); 4];
    let mut table = region_table(&mut mem);
    let descs = vec![MemoryDescriptor { base: 0x40_0000, length: 0x3000, kind: MemoryKind::Ram }];
    process_memory_map(&descs, PAddr::from_u64(0x10_0000), PAddr::from_u64(0x18_0000), &mut table);
    let mut arena = FrameArena::new(frame(0), 8);
    let mut space = [range(0, 0); 8];
    let mut allocator = FirstFitAllocator::new(&mut space);
    allocator.free_range_manual(range(1, 8));
    let pt = PageTable::new(frame(0));
    assert_eq!(map_free_memory(&pt, &table, &mut allocator, &mut arena), Ok(()));
    for f in 0x400u64..0x403 {
        let va = PHYS_MAP + f * 4096;
        assert_eq!(arena.read(frame(3), ((va >> 12) & 0x1FF) as usize), f * 4096 | DATA_FLAGS);
    }
}

#[test]
fn kernel_segments_and_mapping() {
    let off: u64 = 0xFFFF_FFFF_C000_0000;
    let segs = kernel_segments(off + 0x10_0000, off + 0x10_1800, off + 0x10_2000, off + 0x10_3000, off + 0x10_3000, off + 0x10_3001);
    assert_eq!(segs.0, range(0x100, 0x102));
    assert_eq!(segs.1, range(0x102, 0x103));
    assert_eq!(segs.2, range(0x103, 0x104));
    let mut arena = FrameArena::new(frame(0), 8);
    let mut space = [range(0, 0); 8];
    let mut allocator = FirstFitAllocator::new(&mut space);
    allocator.free_range_manual(range(1, 8));
    let pt = PageTable::new(frame(0));
    assert_eq!(map_kernel(&pt, segs, &mut allocator, &mut arena), Ok(()));
    let leaf = |f: u64| arena.read(frame(3), (((off + f * 4096) >> 12) & 0x1FF) as usize);
    assert_eq!(leaf(0x100), 0x100 * 4096 | TEXT_FLAGS);
    assert_eq!(leaf(0x101), 0x101 * 4096 | TEXT_FLAGS);
    assert_eq!(leaf(0x102), 0x102 * 4096 | RODATA_FLAGS);
    assert_eq!(leaf(0x103), 0x103 * 4096 | DATA_FLAGS);
}

#[test]
fn gdt_layout() {
    let g = gdt_entries(0x1234_5678_9ABC_DEF0, 104);
    assert_eq!(g[0], 0);
    assert_eq!(g[1], 0x00AF_9A00_0000_FFFF);
    assert_eq!(g[2], 0x008F_9200_0000_FFFF);
    assert_eq!(g[3], 0x000F_F200_0000_FFFF);
    assert_eq!(g[4], 0x00AF_FA00_0000_FFFF);
    assert_eq!(g[5], 0x9A00_89BC_DEF0_0068);
    assert_eq!(g[6], 0x1234_5678);
}

#[test]
fn idt_gates() {
    assert!(vector_has_gate(0) && vector_has_gate(20) && vector_has_gate(32) && vector_has_gate(255));
    assert!(!vector_has_gate(21) && !vector_has_gate(31));
    assert_eq!(interrupt_gate(0x1122_3344_5566_7788), (0x5566_8E00_0008_7788, 0x1122_3344));
    let handlers: Vec<u64> = (0..256u64).map(|v| 0x1000 + v).collect();
    let idt = idt_entries(&handlers);
    assert_eq!(idt.len(), 256);
    assert_eq!(idt[21], (0, 0));
    assert_eq!(idt[32], interrupt_gate(0x1020));
}

#[test]
fn register_values() {
    assert_eq!(star_value(0), (8u64 << 32) | (19u64 << 48));
    assert_eq!(efer_with_syscall(0x500), 0x501);
    assert_eq!(efer_with_nx(1), 0x801);
    assert_eq!(cr0_with_fpu(0x8000_0015), 0x8000_003B);
    assert_eq!(cr4_with_fxsr(0x20), 0x220);
    assert_eq!(cr4_with_pge(0x20), 0xA0);
    assert_eq!(apic_base_address(0xFEE0_0900), 0xFEE0_0000);
    assert_eq!(apic_base_enabled(0xFEE0_0100), 0xFEE0_0900);
}

#[test]
fn log_line_format() {
    let loc = Location { module: "genesis::boot", file: "boot.rs", line: 3 };
    assert_eq!(log(Level::Warn, &loc, "low memory"), b"WARN:genesis::boot: low memory\n".to_vec());
    assert_eq!(Level::Debug.name(), "DEBUG");
    assert!(Level::Debug.is_enabled());
    assert!(!Level::Trace.is_enabled());
}

#[test]
fn boot_stages_in_order() {
    assert_eq!(BootState::Cold.advance(), Some(BootState::ConsoleUp));
    assert_eq!(BootState::CpuInstalled.advance(), None);
    assert!(BootState::Pivoted.may_enter(BootState::CpuInstalled));
    assert!(!BootState::ConsoleUp.may_enter(BootState::ConsoleUp));
}

#[test]
fn overlapping_regions_are_detected() {
    let mut mem = [region(0, 0); 8];
    let mut table = region_table(&mut mem);
    let descs = vec![
        MemoryDescriptor { base: 0x20_0000, length: 0x10_0000, kind: MemoryKind::Ram },
        MemoryDescriptor { base: 0x28_0000, length: 0x10_0000, kind: MemoryKind::Ram },
    ];
    process_memory_map(&descs, PAddr::from_u64(0x10_0000), PAddr::from_u64(0x18_0000), &mut table);
    assert!(!spans_apart(&table, PAddr::from_u64(0x100_0000), true));
    let mut mem2 = [region(0, 0); 8];
    let mut apart = region_table(&mut mem2);
    let descs2 = vec![
        MemoryDescriptor { base: 0x20_0000, length: 0x8_0000, kind: MemoryKind::Ram },
        MemoryDescriptor { base: 0x28_0000, length: 0x10_0000, kind: MemoryKind::Ram },
    ];
    process_memory_map(&descs2, PAddr::from_u64(0x10_0000), PAddr::from_u64(0x18_0000), &mut apart);
    assert!(spans_apart(&apart, PAddr::from_u64(0x100_0000), true));
}
