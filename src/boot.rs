//! The bring-up stages that decide which physical memory the allocator
//! receives, where the kernel image lies, and which pages are mapped.
use vstd::prelude::*;

use crate::addr::PAddr;
use crate::allocator::FrameAllocator;
use crate::fixed::{region_slots, regions_get, regions_len, stored_regions};
use crate::frame::{Frame, FrameRange, FrameSpan, PHYS_LIMIT};
use crate::addr::VAddr;
use crate::mapping::{
    frames_usable, lemma_empty_root_sound, lemma_map_keeps_sound, lemma_mapping_kept,
    lemma_fewer_free, lemma_slots_differ, lemma_sound_walk, lemma_unmapped_kept, levels_sound,
    mapped_to, same_slot, tables_sound,
};
use crate::page::Page;
use crate::page_table::{
    entry_frame, is_mapped, leaf_entry, lemma_entry_encoding, page_va, table_entry, upper_levels_present, MapError, PageTable, TableMemory, ADDRESS_MASK, PHYS_FRAME_LIMIT, PT_G,
    PT_P, PT_RW, PT_XD, zero_table, ent, reach, pml4_index,
};
use crate::frame::PHYS_MAP;
use crate::region::{trimmed_above, trimmed_below, MemoryRegion, INITIAL_VIRTUAL_OFFSET};
use fixedvec::FixedVec;

verus! {

/// End of the physical memory the loader's identity window covers.
pub const INITIAL_MAP: u64 = 0x4000_0000;

/// The whole frames inside `r`: its start rounded up, its end rounded down.
pub open spec fn inner_span(r: MemoryRegion) -> FrameSpan {
    FrameSpan { lo: ((r.start@ + 4095) / 4096) as nat, hi: r.end@ / 4096 }
}

/// The frames of `r` that the allocator may serve before the pivot: below
/// the identity window's end and below the loader image.
pub open spec fn early_span(r: MemoryRegion, boot_begin: PAddr) -> Option<FrameSpan> {
    let s = inner_span(trimmed_above(trimmed_above(r, PAddr(INITIAL_MAP)), boot_begin));
    if s.lo * 4096 >= INITIAL_MAP || s.lo >= s.hi {
        None
    } else {
        Some(s)
    }
}

/// The frames of `r` at or above the identity window's end.
pub open spec fn upper_span(r: MemoryRegion) -> Option<FrameSpan> {
    let s = inner_span(trimmed_below(r, PAddr(INITIAL_MAP)));
    if s.hi * 4096 <= INITIAL_MAP || s.lo >= s.hi {
        None
    } else {
        Some(s)
    }
}

/// The spans of the regions `rs`, in order: the early spans (see
/// `early_span`) when `early`, else the upper ones (see `upper_span`);
/// regions that yield none are skipped.
pub open spec fn spans_of(rs: Seq<MemoryRegion>, boot_begin: PAddr, early: bool) -> Seq<FrameSpan>
    decreases rs.len(),
{
    if rs.len() == 0 {
        Seq::empty()
    } else {
        let before = spans_of(rs.drop_last(), boot_begin, early);
        let picked = if early {
            early_span(rs.last(), boot_begin)
        } else {
            upper_span(rs.last())
        };
        match picked {
            Some(s) => before.push(s),
            None => before,
        }
    }
}

/// Some span of `ss` holds frame `g`.
pub open spec fn spans_cover(ss: Seq<FrameSpan>, g: nat) -> bool {
    exists|i: int| 0 <= i < ss.len() && #[trigger] ss[i].contains(g)
}

/// Every region ends inside the linear window.
pub open spec fn regions_in_window(rs: Seq<MemoryRegion>) -> bool {
    forall|i: int| 0 <= i < rs.len() ==> #[trigger] rs[i].end@ <= PHYS_LIMIT
}

/// The whole frames inside `r`, or `None` when it holds none.
fn inner_frames(r: MemoryRegion) -> (x: Option<FrameRange>)
    requires
        r.end@ <= PHYS_LIMIT,
    ensures
        inner_span(r).lo < inner_span(r).hi ==> (x matches Some(y) && y@ == inner_span(r)),
        inner_span(r).lo >= inner_span(r).hi ==> x is None,
{
    if r.start.as_u64() > r.end.as_u64() {
        return None;
    }
    let lo = Frame::up(r.start);
    let hi = Frame::down(r.end);
    if lo.start_address().as_u64() >= hi.start_address().as_u64() {
        None
    } else {
        Some(FrameRange::new(lo, hi))
    }
}

/// The spans of a region table (see `spans_of`), built as ranges.
pub fn ranges_for(regions: &FixedVec<MemoryRegion>, boot_begin: PAddr, early: bool) -> (r: Vec<
    FrameRange,
>)
    requires
        regions_in_window(stored_regions(*regions)),
    ensures
        r@.map_values(|x: FrameRange| x@) == spans_of(stored_regions(*regions), boot_begin, early),
{
    let n = regions_len(regions);
    let ghost rs = stored_regions(*regions);
    let mut out: Vec<FrameRange> = Vec::new();
    let mut i: usize = 0;
    while i < n
        invariant
            n == rs.len(),
            rs == stored_regions(*regions),
            regions_in_window(rs),
            i <= n,
            out@.map_values(|x: FrameRange| x@) == spans_of(rs.take(i as int), boot_begin, early),
        decreases n - i,
    {
        let reg = regions_get(regions, i).unwrap();
        assert(rs.take(i as int + 1).drop_last() =~= rs.take(i as int));
        assert(rs.take(i as int + 1).last() == reg);
        let ghost before = out@;
        let mut region = reg;
        if early {
            region.trim_above(PAddr::from_u64(INITIAL_MAP));
            region.trim_above(boot_begin);
        } else {
            region.trim_below(PAddr::from_u64(INITIAL_MAP));
        }
        if let Some(range) = inner_frames(region) {
            let keep = if early {
                range.lower().start_address().as_u64() < INITIAL_MAP
            } else {
                range.upper().start_address().as_u64() > INITIAL_MAP
            };
            if keep {
                out.push(range);
                assert(out@.map_values(|x: FrameRange| x@) =~= before.map_values(
                    |x: FrameRange| x@,
                ).push(range@));
            }
        }
        i = i + 1;
    }
    assert(rs.take(n as int) =~= rs);
    out
}

/// Two ranges share no frame, decided from their start addresses.
fn ranges_apart(a: &FrameRange, b: &FrameRange) -> (r: bool)
    ensures
        r == a@.disjoint(b@),
{
    let al = a.lower().start_address().as_u64();
    let au = a.upper().start_address().as_u64();
    let bl = b.lower().start_address().as_u64();
    let bu = b.upper().start_address().as_u64();
    let r = au <= bl || bu <= al;
    assert(r == a@.disjoint(b@)) by (nonlinear_arith)
        requires
            al == a@.lo * 4096,
            au == a@.hi * 4096,
            bl == b@.lo * 4096,
            bu == b@.hi * 4096,
            r == (au <= bl || bu <= al),
    ;
    r
}

/// The spans of `ss` pairwise share no frame.
pub open spec fn spans_pairwise_apart(ss: Seq<FrameSpan>) -> bool {
    forall|i: int, j: int| 0 <= i < j < ss.len() ==> #[trigger] ss[i].disjoint(#[trigger] ss[j])
}

/// Whether the spans taken from `regions` (those served before the pivot
/// when `early`, else those above the identity window) pairwise share no
/// frame, so that they can all be released.
pub fn spans_apart(regions: &FixedVec<MemoryRegion>, boot_begin: PAddr, early: bool) -> (r: bool)
    requires
        regions_in_window(stored_regions(*regions)),
    ensures
        r == spans_pairwise_apart(spans_of(stored_regions(*regions), boot_begin, early)),
{
    let ranges = ranges_for(regions, boot_begin, early);
    let ghost ss = spans_of(stored_regions(*regions), boot_begin, early);
    assert forall|k: int| 0 <= k < ranges@.len() implies #[trigger] ranges@[k]@ == ss[k] by {
        assert(ranges@.map_values(|x: FrameRange| x@)[k] == ss[k]);
    }
    let n = ranges.len();
    let mut i: usize = 0;
    while i < n
        invariant
            ss == spans_of(stored_regions(*regions), boot_begin, early),
            n == ranges@.len(),
            ss.len() == n,
            forall|k: int| 0 <= k < n ==> #[trigger] ranges@[k]@ == ss[k],
            i <= n,
            forall|a: int, b: int| 0 <= a < b < n && a < i ==> #[trigger] ss[a].disjoint(#[trigger] ss[b]),
        decreases n - i,
    {
        let mut j: usize = i + 1;
        while j < n
            invariant
                ss == spans_of(stored_regions(*regions), boot_begin, early),
                n == ranges@.len(),
                ss.len() == n,
                forall|k: int| 0 <= k < n ==> #[trigger] ranges@[k]@ == ss[k],
                i < n,
                i + 1 <= j <= n,
                forall|a: int, b: int| 0 <= a < b < n && a < i ==> #[trigger] ss[a].disjoint(#[trigger] ss[b]),
                forall|b: int| i < b < j ==> #[trigger] ss[i as int].disjoint(ss[b]),
            decreases n - j,
        {
            if !ranges_apart(&ranges[i], &ranges[j]) {
                assert(!ss[i as int].disjoint(ss[j as int]));
                return false;
            }
            j = j + 1;
        }
        i = i + 1;
    }
    true
}

/// Releases each range of `ranges` into `allocator`.
fn free_ranges<A: FrameAllocator>(ranges: &Vec<FrameRange>, allocator: &mut A)
    requires
        old(allocator).ready(),
        spans_releasable(ranges@.map_values(|x: FrameRange| x@), *old(allocator)),
    ensures
        released(*old(allocator), *final(allocator), ranges@.map_values(|x: FrameRange| x@)),
{
    let ghost a0 = *allocator;
    let ghost ss = ranges@.map_values(|x: FrameRange| x@);
    assert forall|i: int, j: int|
        0 <= i < j < ranges@.len() implies #[trigger] ranges@[i]@.disjoint(#[trigger] ranges@[j]@) by {
        assert(ss[i] == ranges@[i]@ && ss[j] == ranges@[j]@);
    }
    assert forall|j: int, g: nat|
        0 <= j < ranges@.len() && #[trigger] ranges@[j]@.contains(g) implies !a0.is_free(g) by {
        assert(ss[j] == ranges@[j]@);
    }
    let mut i: usize = 0;
    while i < ranges.len()
        invariant
            i <= ranges@.len(),
            ss == ranges@.map_values(|x: FrameRange| x@),
            allocator.ready(),
            forall|i: int, j: int|
                0 <= i < j < ranges@.len() ==> #[trigger] ranges@[i]@.disjoint(
                    #[trigger] ranges@[j]@,
                ),
            forall|j: int, g: nat|
                i <= j < ranges@.len() && #[trigger] ranges@[j]@.contains(g)
                    ==> !allocator.is_free(g),
            forall|g: nat| a0.is_free(g) ==> #[trigger] allocator.is_free(g),
            forall|g: nat|
                #[trigger] allocator.is_free(g) ==> a0.is_free(g) || spans_cover(
                    ss.take(i as int),
                    g,
                ),
            allocator.room() + i >= a0.room(),
            a0.room() >= ranges@.len() ==> forall|g: nat|
                spans_cover(ss.take(i as int), g) ==> #[trigger] allocator.is_free(g),
        decreases ranges@.len() - i,
    {
        let r = ranges[i];
        let ghost before = *allocator;
        allocator.free_range_manual(r);
        proof {
            assert forall|j: int, g: nat|
                i + 1 <= j < ranges@.len() && #[trigger] ranges@[j]@.contains(g)
                    implies !allocator.is_free(g) by {
                assert(ranges@[i as int]@.disjoint(ranges@[j]@));
            }
            assert forall|g: nat|
                #[trigger] allocator.is_free(g) implies a0.is_free(g) || spans_cover(
                    ss.take(i + 1),
                    g,
                ) by {
                if r@.contains(g) {
                    assert(ss.take(i + 1)[i as int] == r@);
                } else if spans_cover(ss.take(i as int), g) {
                    let j = choose|j: int| 0 <= j < i && #[trigger] ss.take(i as int)[j].contains(g);
                    assert(ss.take(i + 1)[j] == ss.take(i as int)[j]);
                }
            }
            if a0.room() >= ranges@.len() {
                assert forall|g: nat|
                    spans_cover(ss.take(i + 1), g) implies #[trigger] allocator.is_free(g) by {
                    let j = choose|j: int| 0 <= j < i + 1 && #[trigger] ss.take(i + 1)[j].contains(g);
                    if j < i {
                        assert(ss.take(i as int)[j] == ss.take(i + 1)[j]);
                        assert(spans_cover(ss.take(i as int), g));
                    }
                }
            }
        }
        i = i + 1;
    }
    assert(ss.take(i as int) =~= ss);
}

/// The spans of `ss` pairwise share no frame, and none of their frames is
/// free in `a`.
pub open spec fn spans_releasable<A: FrameAllocator>(ss: Seq<FrameSpan>, a: A) -> bool {
    &&& spans_pairwise_apart(ss)
    &&& forall|i: int, g: nat| 0 <= i < ss.len() && #[trigger] ss[i].contains(g) ==> !a.is_free(g)
}

/// Allocator `a1` holds the frames `a0` held plus, at most, those of `ss`;
/// all of those when `a0` had room for every span.
pub open spec fn released<A: FrameAllocator>(a0: A, a1: A, ss: Seq<FrameSpan>) -> bool {
    &&& a1.ready()
    &&& forall|g: nat| a0.is_free(g) ==> #[trigger] a1.is_free(g)
    &&& forall|g: nat| #[trigger] a1.is_free(g) ==> a0.is_free(g) || spans_cover(ss, g)
    &&& a0.room() >= ss.len() ==> forall|g: nat| spans_cover(ss, g) ==> #[trigger] a1.is_free(g)
}

/// Seeds `allocator` with the memory it may serve before the pivot: each
/// region cut at the identity window's end and at the loader image.
pub fn populate_allocator<A: FrameAllocator>(
    regions: &FixedVec<MemoryRegion>,
    boot_begin: PAddr,
    allocator: &mut A,
)
    requires
        old(allocator).ready(),
        regions_in_window(stored_regions(*regions)),
        spans_releasable(spans_of(stored_regions(*regions), boot_begin, true), *old(allocator)),
    ensures
        released(*old(allocator), *final(allocator), spans_of(stored_regions(*regions), boot_begin, true)),
        forall|g: nat|
            #[trigger] final(allocator).is_free(g) ==> old(allocator).is_free(g) || g * 4096 < INITIAL_MAP,
{
    let ranges = ranges_for(regions, boot_begin, true);
    free_ranges(&ranges, allocator);
    proof {
        let ss = spans_of(stored_regions(*regions), boot_begin, true);
        lemma_early_spans_below_window(stored_regions(*regions), boot_begin);
        assert forall|g: nat| #[trigger] allocator.is_free(g) implies old(allocator).is_free(g) || g * 4096
            < INITIAL_MAP by {
            if !old(allocator).is_free(g) {
                let i = choose|i: int| 0 <= i < ss.len() && #[trigger] ss[i].contains(g);
                assert(g * 4096 < INITIAL_MAP) by (nonlinear_arith)
                    requires
                        g < ss[i].hi,
                        ss[i].hi * 4096 <= INITIAL_MAP,
                ;
            }
        }
    }
}

/// Hands the allocator the memory above the identity window's end, which
/// becomes reachable once the runtime page table is live.
pub fn free_upper_memory<A: FrameAllocator>(regions: &FixedVec<MemoryRegion>, allocator: &mut A)
    requires
        old(allocator).ready(),
        regions_in_window(stored_regions(*regions)),
        spans_releasable(spans_of(stored_regions(*regions), PAddr(0), false), *old(allocator)),
    ensures
        released(*old(allocator), *final(allocator), spans_of(stored_regions(*regions), PAddr(0), false)),
{
    let ranges = ranges_for(regions, PAddr::from_u64(0), false);
    free_ranges(&ranges, allocator);
}

/// Hands the allocator the loader's memory, `[boot_begin, kbegin)` cut to
/// whole frames.
pub fn free_boot_memory<A: FrameAllocator>(boot_begin: PAddr, kbegin: PAddr, allocator: &mut A)
    requires
        old(allocator).ready(),
        kbegin@ <= PHYS_LIMIT,
        forall|g: nat|
            inner_span(MemoryRegion { start: boot_begin, end: kbegin }).contains(g)
                ==> !old(allocator).is_free(g),
    ensures
        released(
            *old(allocator),
            *final(allocator),
            if inner_span(MemoryRegion { start: boot_begin, end: kbegin }).lo < inner_span(
                MemoryRegion { start: boot_begin, end: kbegin },
            ).hi {
                seq![inner_span(MemoryRegion { start: boot_begin, end: kbegin })]
            } else {
                Seq::empty()
            },
        ),
{
    let region = MemoryRegion::new(boot_begin, kbegin);
    let ghost s = inner_span(region);
    match inner_frames(region) {
        Some(range) => {
            let ghost a0 = *allocator;
            allocator.free_range_manual(range);
            assert forall|g: nat|
                #[trigger] allocator.is_free(g) implies a0.is_free(g) || spans_cover(seq![s], g) by {
                if s.contains(g) {
                    assert(seq![s][0].contains(g));
                }
            }
            assert forall|g: nat| a0.room() >= 1 && spans_cover(seq![s], g) implies #[trigger] allocator.is_free(g) by {
                let j = choose|j: int| 0 <= j < 1 && #[trigger] seq![s][j].contains(g);
                assert(seq![s][j] == s);
            }
        },
        None => {
            assert forall|g: nat| !spans_cover(Seq::<FrameSpan>::empty(), g) by {}
        },
    }
}

/// The frames of the text, read-only data and writable data segments,
/// from the high-half addresses of their boundary markers: each start
/// rounded down, each end rounded up.
pub fn kernel_segments(
    btext: u64,
    etext: u64,
    bro: u64,
    ero: u64,
    bdata: u64,
    edata: u64,
) -> (r: (FrameRange, FrameRange, FrameRange))
    requires
        INITIAL_VIRTUAL_OFFSET <= btext <= etext,
        INITIAL_VIRTUAL_OFFSET <= bro <= ero,
        INITIAL_VIRTUAL_OFFSET <= bdata <= edata,
        etext - INITIAL_VIRTUAL_OFFSET + 4095 <= u64::MAX,
        ero - INITIAL_VIRTUAL_OFFSET + 4095 <= u64::MAX,
        edata - INITIAL_VIRTUAL_OFFSET + 4095 <= u64::MAX,
    ensures
        r.0@ == segment_span(btext, etext),
        r.1@ == segment_span(bro, ero),
        r.2@ == segment_span(bdata, edata),
{
    (segment(btext, etext), segment(bro, ero), segment(bdata, edata))
}

/// Frames covering the bytes from marker `b` to marker `e`.
pub open spec fn segment_span(b: u64, e: u64) -> FrameSpan {
    FrameSpan {
        lo: ((b - INITIAL_VIRTUAL_OFFSET) / 4096) as nat,
        hi: ((e - INITIAL_VIRTUAL_OFFSET + 4095) / 4096) as nat,
    }
}

fn segment(b: u64, e: u64) -> (r: FrameRange)
    requires
        INITIAL_VIRTUAL_OFFSET <= b <= e,
        e - INITIAL_VIRTUAL_OFFSET + 4095 <= u64::MAX,
    ensures
        r@ == segment_span(b, e),
{
    let lo = Frame::down(PAddr::from_u64(b - INITIAL_VIRTUAL_OFFSET));
    let hi = Frame::up(PAddr::from_u64(e - INITIAL_VIRTUAL_OFFSET));
    FrameRange::new(lo, hi)
}

/// Takes a frame for the runtime PML4, clears it, and wraps it as a page
/// table. The allocator must have a frame to give.
pub fn create_runtime_pagetable<A: FrameAllocator, M: TableMemory>(
    allocator: &mut A,
    mem: &mut M,
) -> (r: Option<(Frame, PageTable)>)
    requires
        old(allocator).ready(),
        frames_usable(*old(mem), *old(allocator)),
        exists|g: nat| old(allocator).is_free(g),
    ensures
        r is Some,
        final(allocator).ready(),
        frames_usable(*final(mem), *final(allocator)),
        forall|t: nat| #[trigger] reach(*final(mem), t) == reach(*old(mem), t),
        r matches Some(p) ==> {
            &&& p.1@ == p.0@
            &&& tables_sound(*final(mem), *final(allocator), p.0@)
            &&& old(allocator).is_free(p.0@)
            &&& !final(allocator).is_free(p.0@)
            &&& forall|g: nat| g != p.0@ ==> #[trigger] final(allocator).is_free(g) == old(allocator).is_free(g)
            &&& forall|t: nat, i: nat| #[trigger] ent(*final(mem), t, i) == if t == p.0@ {
                0
            } else {
                ent(*old(mem), t, i)
            }
        },
{
    match allocator.allocate_manual() {
        None => None,
        Some(frame) => {
            zero_table(mem, frame);
            proof {
                lemma_empty_root_sound(*mem, *allocator, frame@);
                assert forall|g: nat| #[trigger] allocator.is_free(g) implies g < PHYS_FRAME_LIMIT
                    && reach(*mem, g) by {}
            }
            Some((frame, PageTable::new(frame)))
        },
    }
}

/// Leaf attributes of the linear window, writable data and the stack.
pub const DATA_FLAGS: u64 = PT_P | PT_RW | PT_G | PT_XD;

/// Leaf attributes of kernel text.
pub const TEXT_FLAGS: u64 = PT_P | PT_G;

/// Leaf attributes of read-only kernel data.
pub const RODATA_FLAGS: u64 = PT_P | PT_G | PT_XD;

/// Number of pages in the boot stack.
pub const STACK_PAGES: u64 = 3;

/// Leaf attributes that leave the address field alone and mark the entry
/// present.
pub open spec fn leaf_flags_ok(flags: u64) -> bool {
    flags & ADDRESS_MASK == 0 && flags & PT_P == PT_P
}

proof fn lemma_present_entry(f: nat, flags: u64)
    requires
        flags & PT_P == PT_P,
    ensures
        table_entry(f, flags) != 0,
{
    let x = (f * 4096) as u64;
    assert(flags & 1 == 1 ==> x | flags != 0) by (bit_vector);
}

proof fn lemma_flag_constants()
    ensures
        leaf_flags_ok(DATA_FLAGS),
        leaf_flags_ok(TEXT_FLAGS),
        leaf_flags_ok(RODATA_FLAGS),
{
    assert((1u64 | 2u64 | 0x100u64 | 0x8000_0000_0000_0000u64) & 0x000F_FFFF_FFFF_F000u64 == 0
        && (1u64 | 2u64 | 0x100u64 | 0x8000_0000_0000_0000u64) & 1u64 == 1u64) by (bit_vector);
    assert((1u64 | 0x100u64) & 0x000F_FFFF_FFFF_F000u64 == 0 && (1u64 | 0x100u64) & 1u64 == 1u64)
        by (bit_vector);
    assert((1u64 | 0x100u64 | 0x8000_0000_0000_0000u64) & 0x000F_FFFF_FFFF_F000u64 == 0 && (1u64
        | 0x100u64 | 0x8000_0000_0000_0000u64) & 1u64 == 1u64) by (bit_vector);
}

/// What a sequence of successful mappings leaves behind: the table is
/// still sound, the free frames only shrank and stay usable, and every
/// earlier mapping is still in place.
#[verifier::opaque]
pub open spec fn mapping_grew<M: TableMemory, A: FrameAllocator>(
    m0: M,
    a0: A,
    m1: M,
    a1: A,
    root: nat,
) -> bool {
    &&& a1.ready()
    &&& tables_sound(m1, a1, root)
    &&& frames_usable(m1, a1)
    &&& forall|g: nat| #[trigger] a1.is_free(g) ==> a0.is_free(g)
    &&& forall|q: nat, e: u64| mapped_to(m0, root, q, e) && e != 0 ==> #[trigger] mapped_to(m1, root, q, e)
}

/// Two stretches of mapping make one.
proof fn lemma_grew_trans<M: TableMemory, A: FrameAllocator>(
    m0: M,
    a0: A,
    m1: M,
    a1: A,
    m2: M,
    a2: A,
    root: nat,
)
    requires
        mapping_grew(m0, a0, m1, a1, root),
        mapping_grew(m1, a1, m2, a2, root),
    ensures
        mapping_grew(m0, a0, m2, a2, root),
{
    reveal(mapping_grew);
    assert forall|q: nat, e: u64| mapped_to(m0, root, q, e) && e != 0 implies #[trigger] mapped_to(m2, root, q, e) by {
        assert(mapped_to(m1, root, q, e));
    }
}

/// After a stretch of mapping the table is sound and the free frames
/// usable, and only fewer frames are free.
proof fn lemma_grew_sound<M: TableMemory, A: FrameAllocator>(m0: M, a0: A, m1: M, a1: A, root: nat)
    requires
        mapping_grew(m0, a0, m1, a1, root),
    ensures
        a1.ready(),
        tables_sound(m1, a1, root),
        frames_usable(m1, a1),
        forall|g: nat| #[trigger] a1.is_free(g) ==> a0.is_free(g),
{
    reveal(mapping_grew);
}

/// A mapping in place before a stretch of mapping is still there after.
proof fn lemma_grew_keeps<M: TableMemory, A: FrameAllocator>(
    m0: M,
    a0: A,
    m1: M,
    a1: A,
    root: nat,
    q: nat,
    e: u64,
)
    requires
        mapping_grew(m0, a0, m1, a1, root),
        mapped_to(m0, root, q, e),
        e != 0,
    ensures
        mapped_to(m1, root, q, e),
{
    reveal(mapping_grew);
}

/// Maps one page and carries soundness and earlier mappings across.
fn map_one<A: FrameAllocator, M: TableMemory>(
    table: &PageTable,
    page: Page,
    frame: Frame,
    flags: u64,
    allocator: &mut A,
    mem: &mut M,
) -> (r: Result<(), MapError>)
    requires
        old(allocator).ready(),
        leaf_flags_ok(flags),
        frame@ < PHYS_FRAME_LIMIT,
        tables_sound(*old(mem), *old(allocator), table@),
        frames_usable(*old(mem), *old(allocator)),
    ensures
        final(allocator).ready(),
        forall|g: nat| #[trigger] final(allocator).is_free(g) ==> old(allocator).is_free(g),
        r is Ok ==> mapping_grew(*old(mem), *old(allocator), *final(mem), *final(allocator), table@),
        r is Ok ==> mapped_to(*final(mem), table@, page_va(page), table_entry(frame@, flags)),
        r is Ok ==> forall|q: nat|
            !is_mapped(*old(mem), table@, q) && !same_slot(q, page_va(page))
                ==> !#[trigger] is_mapped(*final(mem), table@, q),
        r == Err::<(), MapError>(MapError::OutOfFrames) ==> forall|g: nat|
            !#[trigger] final(allocator).is_free(g),
        r == Err::<(), MapError>(MapError::OutOfFrames) ==> !upper_levels_present(*final(mem), table@, page_va(page)),
        r == Err::<(), MapError>(MapError::AlreadyMapped) ==> is_mapped(*old(mem), table@, page_va(page)),
{
    proof {
        reveal(mapping_grew);
    }
    let ghost m0 = *mem;
    let ghost a0 = *allocator;
    let ghost root = table@;
    let ghost ls = choose|l3: Set<nat>, l2: Set<nat>, l1: Set<nat>| levels_sound(m0, a0, root, l3, l2, l1);
    proof {
        lemma_sound_walk(m0, a0, root, ls.0, ls.1, ls.2, page_va(page));
    }
    let r = table.map(page, frame, flags, allocator, mem);
    if r.is_ok() {
        proof {
            let va = page_va(page);
            lemma_map_keeps_sound(m0, a0, *mem, *allocator, root, ls.0, ls.1, ls.2, va);
            assert forall|q: nat, e: u64|
                mapped_to(m0, root, q, e) && e != 0 implies #[trigger] mapped_to(*mem, root, q, e) by {
                lemma_mapping_kept(m0, a0, *mem, *allocator, root, ls.0, ls.1, ls.2, q, e);
            }
            assert forall|q: nat|
                !is_mapped(m0, root, q) && !same_slot(q, va) implies !#[trigger] is_mapped(*mem, root, q) by {
                lemma_unmapped_kept(m0, a0, *mem, *allocator, root, ls.0, ls.1, ls.2, va, q);
            }
        }
    }
    r
}

/// Distinct frames less than 2^36 apart land in different slots at the
/// same offset.
proof fn lemma_frames_apart(f: nat, g: nat, offset: u64)
    requires
        f != g,
        f < 0x10_0000_0000,
        g < 0x10_0000_0000,
        offset % 4096 == 0,
        f * 4096 + offset <= u64::MAX,
        g * 4096 + offset <= u64::MAX,
    ensures
        !same_slot((f * 4096 + offset) as nat, (g * 4096 + offset) as nat),
{
    let a = (f * 4096 + offset) as nat;
    let b = (g * 4096 + offset) as nat;
    if f < g {
        assert((b - a) % 4096 == 0 && b - a < 0x1_0000_0000_0000) by (nonlinear_arith)
            requires
                f < g < 0x10_0000_0000,
                a == f * 4096 + offset,
                b == g * 4096 + offset,
        ;
        lemma_slots_differ(a, b);
    } else {
        assert((a - b) % 4096 == 0 && a - b < 0x1_0000_0000_0000) by (nonlinear_arith)
            requires
                g < f < 0x10_0000_0000,
                a == f * 4096 + offset,
                b == g * 4096 + offset,
        ;
        lemma_slots_differ(b, a);
    }
}

/// Page `q` uses the same entries as the page of some frame of `range`
/// mapped at `offset`.
pub open spec fn in_slots(q: nat, range: FrameSpan, offset: u64) -> bool {
    exists|f: nat| range.contains(f) && #[trigger] same_slot(q, (f * 4096 + offset) as nat)
}

/// Maps each frame `f` of `range` at virtual address `f * 4096 + offset`.
fn map_frames<A: FrameAllocator, M: TableMemory>(
    table: &PageTable,
    range: FrameRange,
    offset: u64,
    flags: u64,
    allocator: &mut A,
    mem: &mut M,
) -> (r: Result<(), MapError>)
    requires
        old(allocator).ready(),
        leaf_flags_ok(flags),
        offset % 4096 == 0,
        range@.hi <= PHYS_FRAME_LIMIT,
        range@.hi <= 0x10_0000_0000,
        range@.hi * 4096 + offset <= u64::MAX + 4096,
        tables_sound(*old(mem), *old(allocator), table@),
        frames_usable(*old(mem), *old(allocator)),
    ensures
        final(allocator).ready(),
        forall|g: nat| #[trigger] final(allocator).is_free(g) ==> old(allocator).is_free(g),
        r is Ok ==> mapping_grew(*old(mem), *old(allocator), *final(mem), *final(allocator), table@),
        r is Ok ==> forall|f: nat|
            range@.contains(f) ==> #[trigger] mapped_to(
                *final(mem),
                table@,
                (f * 4096 + offset) as nat,
                table_entry(f, flags),
            ),
        r is Ok ==> forall|q: nat|
            !is_mapped(*old(mem), table@, q) && !in_slots(q, range@, offset)
                ==> !#[trigger] is_mapped(*final(mem), table@, q),
        r == Err::<(), MapError>(MapError::OutOfFrames) ==> forall|g: nat|
            !#[trigger] final(allocator).is_free(g),
        r == Err::<(), MapError>(MapError::OutOfFrames) ==> exists|f: nat|
            range@.contains(f) && !#[trigger] upper_levels_present(*final(mem), table@, (f * 4096 + offset) as nat),
        r == Err::<(), MapError>(MapError::AlreadyMapped) ==> exists|f: nat|
            range@.contains(f) && #[trigger] is_mapped(*old(mem), table@, (f * 4096 + offset) as nat),
{
    proof {
        reveal(mapping_grew);
    }
    let ghost m0 = *mem;
    let ghost a0 = *allocator;
    let ghost root = table@;
    let n = range.nframes();
    let lower = range.lower();
    proof {
        use_type_invariant(range);
    }
    let mut i: u64 = 0;
    while i < n
        invariant
            root == table@,
            a0 == *old(allocator),
            m0 == *old(mem),
            i <= n,
            n == range@.len(),
            lower@ == range@.lo,
            range@.hi < crate::frame::FRAME_LIMIT,
            leaf_flags_ok(flags),
            offset % 4096 == 0,
            range@.hi <= PHYS_FRAME_LIMIT,
            range@.hi <= 0x10_0000_0000,
            range@.hi * 4096 + offset <= u64::MAX + 4096,
            forall|f: nat|
                range@.lo + i <= f < range@.hi && !is_mapped(m0, root, (f * 4096 + offset) as nat)
                    ==> !#[trigger] is_mapped(*mem, root, (f * 4096 + offset) as nat),
            forall|q: nat|
                !is_mapped(m0, root, q) && !in_slots(q, range@, offset)
                    ==> !#[trigger] is_mapped(*mem, root, q),
            i == 0 ==> *mem == m0 && *allocator == a0,
            allocator.ready(),
            tables_sound(*mem, *allocator, root),
            frames_usable(*mem, *allocator),
            i > 0 ==> mapping_grew(m0, a0, *mem, *allocator, root),
            forall|g: nat| #[trigger] allocator.is_free(g) ==> a0.is_free(g),
            forall|f: nat|
                range@.lo <= f < range@.lo + i ==> #[trigger] mapped_to(
                    *mem,
                    root,
                    (f * 4096 + offset) as nat,
                    table_entry(f, flags),
                ),
        decreases n - i,
    {
        proof {
            reveal(mapping_grew);
        }
        let frame = lower.add(i);
        let addr = frame.start_address().as_u64() + offset;
        let page = Page::down(VAddr::from_u64(addr));
        assert(page_va(page) == frame@ * 4096 + offset) by (nonlinear_arith)
            requires
                page@ == addr / 4096,
                addr == frame@ * 4096 + offset,
                offset % 4096 == 0,
                page_va(page) == page@ * 4096,
        ;
        let ghost mp = *mem;
        let ghost ap = *allocator;
        match map_one(table, page, frame, flags, allocator, mem) {
            Ok(()) => {},
            Err(e) => {
                assert forall|g: nat| #[trigger] allocator.is_free(g) implies a0.is_free(g) by {
                    assert(ap.is_free(g));
                }
                proof {
                    if e == MapError::AlreadyMapped {
                        assert(is_mapped(m0, root, (frame@ * 4096 + offset) as nat));
                        assert(range@.contains(frame@));
                    }
                    if e == MapError::OutOfFrames {
                        assert(!upper_levels_present(*mem, root, (frame@ * 4096 + offset) as nat));
                        assert(range@.contains(frame@));
                    }
                }
                return Err(e);
            },
        }
        proof {
            let pv = (frame@ * 4096 + offset) as nat;
            assert forall|f: nat|
                range@.lo + i + 1 <= f < range@.hi && !is_mapped(m0, root, (f * 4096 + offset) as nat)
                    implies !#[trigger] is_mapped(*mem, root, (f * 4096 + offset) as nat) by {
                lemma_frames_apart(f, frame@, offset);
                assert(!is_mapped(mp, root, (f * 4096 + offset) as nat));
            }
            assert forall|q: nat|
                !is_mapped(m0, root, q) && !in_slots(q, range@, offset)
                    implies !#[trigger] is_mapped(*mem, root, q) by {
                assert(range@.contains(frame@));
                assert(!same_slot(q, pv));
                assert(!is_mapped(mp, root, q));
            }
            assert forall|f: nat|
                range@.lo <= f < range@.lo + i + 1 implies #[trigger] mapped_to(
                *mem,
                root,
                (f * 4096 + offset) as nat,
                table_entry(f, flags),
            ) by {
                if f < range@.lo + i {
                    lemma_present_entry(f, flags);
                    assert(mapped_to(mp, root, (f * 4096 + offset) as nat, table_entry(f, flags)));
                }
            }
            if i > 0 {
                assert forall|q: nat, e: u64|
                    mapped_to(m0, root, q, e) && e != 0 implies #[trigger] mapped_to(*mem, root, q, e) by {
                    assert(mapped_to(mp, root, q, e));
                }
            }
        }
        i = i + 1;
    }
    proof {
        assert forall|f: nat| range@.contains(f) implies #[trigger] mapped_to(
            *mem,
            table@,
            (f * 4096 + offset) as nat,
            table_entry(f, flags),
        ) by {
            assert(range@.lo <= f < range@.lo + i);
        }
        if n == 0 {
            assert forall|q: nat, e: u64|
                mapped_to(m0, root, q, e) && e != 0 implies #[trigger] mapped_to(*mem, root, q, e) by {}
        }
    }
    Ok(())
}

/// Maps a kernel segment at its high-half address in the loader's window.
fn map_range<A: FrameAllocator, M: TableMemory>(
    table: &PageTable,
    range: FrameRange,
    flags: u64,
    allocator: &mut A,
    mem: &mut M,
) -> (r: Result<(), MapError>)
    requires
        old(allocator).ready(),
        leaf_flags_ok(flags),
        range@.hi * 4096 <= INITIAL_MAP,
        tables_sound(*old(mem), *old(allocator), table@),
        frames_usable(*old(mem), *old(allocator)),
    ensures
        final(allocator).ready(),
        forall|g: nat| #[trigger] final(allocator).is_free(g) ==> old(allocator).is_free(g),
        r is Ok ==> mapping_grew(*old(mem), *old(allocator), *final(mem), *final(allocator), table@),
        r is Ok ==> forall|f: nat|
            range@.contains(f) ==> #[trigger] mapped_to(
                *final(mem),
                table@,
                (f * 4096 + INITIAL_VIRTUAL_OFFSET) as nat,
                table_entry(f, flags),
            ),
        r is Ok ==> forall|q: nat|
            !is_mapped(*old(mem), table@, q) && !in_slots(q, range@, INITIAL_VIRTUAL_OFFSET)
                ==> !#[trigger] is_mapped(*final(mem), table@, q),
        r == Err::<(), MapError>(MapError::OutOfFrames) ==> forall|g: nat|
            !#[trigger] final(allocator).is_free(g),
        r == Err::<(), MapError>(MapError::OutOfFrames) ==> exists|f: nat|
            range@.contains(f) && !#[trigger] upper_levels_present(*final(mem), table@, kernel_va(f)),
        r == Err::<(), MapError>(MapError::AlreadyMapped) ==> exists|f: nat|
            range@.contains(f) && #[trigger] is_mapped(*old(mem), table@, kernel_va(f)),
{
    proof {
        reveal(mapping_grew);
    }
    let ghost m0 = *mem;
    let r = map_frames(table, range, INITIAL_VIRTUAL_OFFSET, flags, allocator, mem);
    proof {
        if r == Err::<(), MapError>(MapError::AlreadyMapped) {
            let f = choose|f: nat|
                range@.contains(f) && #[trigger] is_mapped(m0, table@, (f * 4096 + INITIAL_VIRTUAL_OFFSET) as nat);
            assert(is_mapped(m0, table@, kernel_va(f)));
        }
        if r == Err::<(), MapError>(MapError::OutOfFrames) {
            let f = choose|f: nat|
                range@.contains(f) && !#[trigger] upper_levels_present(*mem, table@, (f * 4096 + INITIAL_VIRTUAL_OFFSET) as nat);
            assert(!upper_levels_present(*mem, table@, kernel_va(f)));
        }
    }
    r
}

/// High-half address of frame `f` in the loader's window.
pub open spec fn kernel_va(f: nat) -> nat {
    (f * 4096 + INITIAL_VIRTUAL_OFFSET) as nat
}

/// Frame `f` lies in a kernel segment and its page cannot be mapped anew:
/// it was mapped already, or an earlier segment holds it too.
pub open spec fn kernel_clash<M: TableMemory>(
    m: M,
    root: nat,
    segments: (FrameSpan, FrameSpan, FrameSpan),
    f: nat,
) -> bool {
    let (t, ro, d) = segments;
    &&& t.contains(f) || ro.contains(f) || d.contains(f)
    &&& is_mapped(m, root, kernel_va(f)) || (ro.contains(f) && t.contains(f)) || (d.contains(f) && (
    t.contains(f) || ro.contains(f)))
}

/// No page of a frame outside `range` shares entries with the pages of
/// `range` at `offset`.
proof fn lemma_outside_slots(range: FrameSpan, offset: u64, f: nat)
    requires
        !range.contains(f),
        f < 0x10_0000_0000,
        range.hi <= 0x10_0000_0000,
        offset % 4096 == 0,
        f * 4096 + offset <= u64::MAX,
        range.hi * 4096 + offset <= u64::MAX + 4096,
    ensures
        !in_slots((f * 4096 + offset) as nat, range, offset),
{
    assert forall|g: nat| range.contains(g) implies !#[trigger] same_slot(
        (f * 4096 + offset) as nat,
        (g * 4096 + offset) as nat,
    ) by {
        lemma_frames_apart(f, g, offset);
    }
}

/// Kernel segment `range` is mapped at its high-half address with `flags`.
pub open spec fn segment_mapped<M: TableMemory>(m: M, root: nat, range: FrameSpan, flags: u64) -> bool {
    forall|f: nat|
        range.contains(f) ==> #[trigger] mapped_to(
            m,
            root,
            (f * 4096 + INITIAL_VIRTUAL_OFFSET) as nat,
            table_entry(f, flags),
        )
}

/// Maps the kernel's text (present, global), read-only data (present,
/// global, no-execute) and writable data (present, writable, global,
/// no-execute) at their high-half addresses.
pub fn map_kernel<A: FrameAllocator, M: TableMemory>(
    table: &PageTable,
    segments: (FrameRange, FrameRange, FrameRange),
    allocator: &mut A,
    mem: &mut M,
) -> (r: Result<(), MapError>)
    requires
        old(allocator).ready(),
        segments.0@.hi * 4096 <= INITIAL_MAP,
        segments.1@.hi * 4096 <= INITIAL_MAP,
        segments.2@.hi * 4096 <= INITIAL_MAP,
        tables_sound(*old(mem), *old(allocator), table@),
        frames_usable(*old(mem), *old(allocator)),
    ensures
        final(allocator).ready(),
        forall|g: nat| #[trigger] final(allocator).is_free(g) ==> old(allocator).is_free(g),
        r is Ok ==> mapping_grew(*old(mem), *old(allocator), *final(mem), *final(allocator), table@),
        r is Ok ==> segment_mapped(*final(mem), table@, segments.0@, TEXT_FLAGS),
        r is Ok ==> segment_mapped(*final(mem), table@, segments.1@, RODATA_FLAGS),
        r is Ok ==> segment_mapped(*final(mem), table@, segments.2@, DATA_FLAGS),
        r is Ok ==> forall|q: nat|
            !is_mapped(*old(mem), table@, q) && !in_slots(q, segments.0@, INITIAL_VIRTUAL_OFFSET)
                && !in_slots(q, segments.1@, INITIAL_VIRTUAL_OFFSET) && !in_slots(
                q,
                segments.2@,
                INITIAL_VIRTUAL_OFFSET,
            ) ==> !#[trigger] is_mapped(*final(mem), table@, q),
        r == Err::<(), MapError>(MapError::OutOfFrames) ==> forall|g: nat|
            !#[trigger] final(allocator).is_free(g),
        r == Err::<(), MapError>(MapError::OutOfFrames) ==> exists|f: nat|
            (segments.0@.contains(f) || segments.1@.contains(f) || segments.2@.contains(f))
                && !#[trigger] upper_levels_present(*final(mem), table@, kernel_va(f)),
        r == Err::<(), MapError>(MapError::AlreadyMapped) ==> exists|f: nat|
            #[trigger] kernel_clash(*old(mem), table@, (segments.0@, segments.1@, segments.2@), f),
{
    proof {
        reveal(mapping_grew);
    }
    proof {
        lemma_flag_constants();
    }
    let ghost m0 = *mem;
    let ghost a0 = *allocator;
    let (text, ro, data) = segments;
    let ghost segs = (text@, ro@, data@);
    match map_range(table, text, TEXT_FLAGS, allocator, mem) {
        Ok(()) => {},
        Err(e) => {
            proof {
                if e == MapError::OutOfFrames {
                    let f = choose|f: nat| text@.contains(f) && !#[trigger] upper_levels_present(*mem, table@, kernel_va(f));
                    assert(text@.contains(f) && !upper_levels_present(*mem, table@, kernel_va(f)));
                }
                if e == MapError::AlreadyMapped {
                    let f = choose|f: nat| text@.contains(f) && #[trigger] is_mapped(m0, table@, kernel_va(f));
                    assert(kernel_clash(m0, table@, segs, f));
                }
            }
            return Err(e);
        },
    }
    let ghost m1 = *mem;
    let ghost a1 = *allocator;
    match map_range(table, ro, RODATA_FLAGS, allocator, mem) {
        Ok(()) => {},
        Err(e) => {
            proof {
                if e == MapError::OutOfFrames {
                    let f = choose|f: nat| ro@.contains(f) && !#[trigger] upper_levels_present(*mem, table@, kernel_va(f));
                    assert(ro@.contains(f) && !upper_levels_present(*mem, table@, kernel_va(f)));
                }
                if e == MapError::AlreadyMapped {
                    let f = choose|f: nat| ro@.contains(f) && #[trigger] is_mapped(m1, table@, kernel_va(f));
                    if !text@.contains(f) && !is_mapped(m0, table@, kernel_va(f)) {
                        lemma_outside_slots(text@, INITIAL_VIRTUAL_OFFSET, f);
                    }
                    assert(kernel_clash(m0, table@, segs, f));
                }
            }
            return Err(e);
        },
    }
    let ghost m2 = *mem;
    match map_range(table, data, DATA_FLAGS, allocator, mem) {
        Ok(()) => {},
        Err(e) => {
            proof {
                if e == MapError::OutOfFrames {
                    let f = choose|f: nat| data@.contains(f) && !#[trigger] upper_levels_present(*mem, table@, kernel_va(f));
                    assert(data@.contains(f) && !upper_levels_present(*mem, table@, kernel_va(f)));
                }
                if e == MapError::AlreadyMapped {
                    let f = choose|f: nat| data@.contains(f) && #[trigger] is_mapped(m2, table@, kernel_va(f));
                    if !text@.contains(f) && !ro@.contains(f) && !is_mapped(m0, table@, kernel_va(f)) {
                        lemma_outside_slots(text@, INITIAL_VIRTUAL_OFFSET, f);
                        lemma_outside_slots(ro@, INITIAL_VIRTUAL_OFFSET, f);
                        assert(!is_mapped(m1, table@, kernel_va(f)));
                    }
                    assert(kernel_clash(m0, table@, segs, f));
                }
            }
            return Err(e);
        },
    }
    proof {
        assert forall|f: nat| text@.contains(f) implies #[trigger] mapped_to(
            *mem,
            table@,
            (f * 4096 + INITIAL_VIRTUAL_OFFSET) as nat,
            table_entry(f, TEXT_FLAGS),
        ) by {
            lemma_present_entry(f, TEXT_FLAGS);
            assert(mapped_to(m1, table@, (f * 4096 + INITIAL_VIRTUAL_OFFSET) as nat, table_entry(f, TEXT_FLAGS)));
            assert(mapped_to(m2, table@, (f * 4096 + INITIAL_VIRTUAL_OFFSET) as nat, table_entry(f, TEXT_FLAGS)));
        }
        assert forall|f: nat| ro@.contains(f) implies #[trigger] mapped_to(
            *mem,
            table@,
            (f * 4096 + INITIAL_VIRTUAL_OFFSET) as nat,
            table_entry(f, RODATA_FLAGS),
        ) by {
            lemma_present_entry(f, RODATA_FLAGS);
            assert(mapped_to(m2, table@, (f * 4096 + INITIAL_VIRTUAL_OFFSET) as nat, table_entry(f, RODATA_FLAGS)));
        }
        assert forall|q: nat, e: u64|
            mapped_to(m0, table@, q, e) && e != 0 implies #[trigger] mapped_to(*mem, table@, q, e) by {
            assert(mapped_to(m1, table@, q, e));
            assert(mapped_to(m2, table@, q, e));
        }
        assert forall|q: nat|
            !is_mapped(m0, table@, q) && !in_slots(q, text@, INITIAL_VIRTUAL_OFFSET) && !in_slots(
                q,
                ro@,
                INITIAL_VIRTUAL_OFFSET,
            ) && !in_slots(q, data@, INITIAL_VIRTUAL_OFFSET) implies !#[trigger] is_mapped(
            *mem,
            table@,
            q,
        ) by {
            assert(!is_mapped(m1, table@, q));
            assert(!is_mapped(m2, table@, q));
        }
    }
    Ok(())
}

/// Page `va` holds a stack frame: a frame that was free in `a0`, is no
/// longer free in `a1`, and is mapped present, writable, global and
/// no-execute.
pub open spec fn stack_page<M: TableMemory, A: FrameAllocator>(m: M, a0: A, a1: A, root: nat, va: nat) -> bool {
    let f = entry_frame(leaf_entry(m, root, va));
    &&& upper_levels_present(m, root, va)
    &&& leaf_entry(m, root, va) == table_entry(f, DATA_FLAGS)
    &&& a0.is_free(f)
    &&& !a1.is_free(f)
}

/// The frame page `va`'s leaf points at.
pub open spec fn stack_frame<M: TableMemory>(m: M, root: nat, va: nat) -> nat {
    entry_frame(leaf_entry(m, root, va))
}

/// Maps a stack of three fresh frames in the pages just below `kbegin`'s
/// page, and returns the stack's top: the start of that page.
/// One stack page mapped from `m0` to `m1`: the mapping grew, frame `f`
/// was free and is taken, page `va` holds it, and every other unmapped
/// page stays unmapped.
#[verifier::opaque]
pub open spec fn stack_step<M: TableMemory, A: FrameAllocator>(
    m0: M,
    a0: A,
    m1: M,
    a1: A,
    root: nat,
    va: nat,
    f: nat,
) -> bool {
    &&& mapping_grew(m0, a0, m1, a1, root)
    &&& a0.is_free(f)
    &&& !a1.is_free(f)
    &&& stack_page(m1, a0, a1, root, va)
    &&& stack_frame(m1, root, va) == f
    &&& forall|q: nat|
        !is_mapped(m0, root, q) && !same_slot(q, va) ==> !#[trigger] is_mapped(m1, root, q)
}

proof fn lemma_step_facts<M: TableMemory, A: FrameAllocator>(
    m0: M,
    a0: A,
    m1: M,
    a1: A,
    root: nat,
    va: nat,
    f: nat,
)
    requires
        stack_step(m0, a0, m1, a1, root, va, f),
    ensures
        mapping_grew(m0, a0, m1, a1, root),
        a0.is_free(f),
        !a1.is_free(f),
        stack_page(m1, a0, a1, root, va),
        stack_frame(m1, root, va) == f,
{
    reveal(stack_step);
}

proof fn lemma_step_unmapped<M: TableMemory, A: FrameAllocator>(
    m0: M,
    a0: A,
    m1: M,
    a1: A,
    root: nat,
    va: nat,
    f: nat,
    q: nat,
)
    requires
        stack_step(m0, a0, m1, a1, root, va, f),
        !is_mapped(m0, root, q),
        !same_slot(q, va),
    ensures
        !is_mapped(m1, root, q),
{
    reveal(stack_step);
}

/// Takes a fresh frame and maps `page` to it as stack memory.
fn map_stack_page<A: FrameAllocator, M: TableMemory>(
    table: &PageTable,
    page: Page,
    allocator: &mut A,
    mem: &mut M,
) -> (r: Result<Frame, MapError>)
    requires
        old(allocator).ready(),
        tables_sound(*old(mem), *old(allocator), table@),
        frames_usable(*old(mem), *old(allocator)),
    ensures
        final(allocator).ready(),
        forall|g: nat| #[trigger] final(allocator).is_free(g) ==> old(allocator).is_free(g),
        r matches Ok(f) ==> stack_step(
            *old(mem),
            *old(allocator),
            *final(mem),
            *final(allocator),
            table@,
            page_va(page),
            f@,
        ),
        r == Err::<Frame, MapError>(MapError::OutOfFrames) ==> forall|g: nat|
            !#[trigger] final(allocator).is_free(g),
        r == Err::<Frame, MapError>(MapError::OutOfFrames) ==> !is_mapped(*final(mem), table@, page_va(page))
            || is_mapped(*old(mem), table@, page_va(page)),
        r == Err::<Frame, MapError>(MapError::AlreadyMapped) ==> is_mapped(*old(mem), table@, page_va(page)),
{
    proof {
        reveal(mapping_grew);
    }
    proof {
        lemma_flag_constants();
    }
    let ghost m0 = *mem;
    let ghost a0 = *allocator;
    let frame = match allocator.allocate_manual() {
        Some(f) => f,
        None => {
            return Err(MapError::OutOfFrames);
        },
    };
    let ghost aq = *allocator;
    proof {
        lemma_fewer_free(*mem, a0, aq, table@);
    }
    match map_one(table, page, frame, DATA_FLAGS, allocator, mem) {
        Ok(()) => {},
        Err(e) => {
            assert forall|g: nat| #[trigger] allocator.is_free(g) implies a0.is_free(g) by {
                assert(aq.is_free(g));
            }
            return Err(e);
        },
    }
    proof {
        reveal(stack_step);
        assert(frame@ < PHYS_FRAME_LIMIT);
        lemma_entry_encoding(frame@ as u64, DATA_FLAGS);
        assert forall|g: nat| #[trigger] allocator.is_free(g) implies a0.is_free(g) by {
            assert(aq.is_free(g));
        }
        assert forall|q: nat, e: u64|
            mapped_to(m0, table@, q, e) && e != 0 implies #[trigger] mapped_to(*mem, table@, q, e) by {
            assert(mapped_to(m0, table@, q, e) ==> mapped_to(*mem, table@, q, e));
        }
    }
    Ok(frame)
}

/// The three pages below `kbegin`'s page each hold a stack frame (see
/// `stack_page`), and no two hold the same frame.
#[verifier::opaque]
pub open spec fn stack_mapped<M: TableMemory, A: FrameAllocator>(m: M, a0: A, a: A, root: nat, kb: nat) -> bool {
    &&& forall|k: nat|
        1 <= k <= STACK_PAGES ==> #[trigger] stack_page(m, a0, a, root, ((kb / 4096 - k) * 4096) as nat)
    &&& forall|k1: nat, k2: nat|
        1 <= k1 < k2 <= STACK_PAGES ==> #[trigger] stack_frame(m, root, ((kb / 4096 - k1) * 4096) as nat)
            != #[trigger] stack_frame(m, root, ((kb / 4096 - k2) * 4096) as nat)
}

proof fn lemma_stack_done<M: TableMemory, A: FrameAllocator>(
    m: M,
    a0: A,
    a: A,
    root: nat,
    kb: nat,
    f1: nat,
    f2: nat,
    f3: nat,
)
    requires
        stack_page(m, a0, a, root, stack_va(kb, 1)),
        stack_page(m, a0, a, root, stack_va(kb, 2)),
        stack_page(m, a0, a, root, stack_va(kb, 3)),
        stack_frame(m, root, stack_va(kb, 1)) == f1,
        stack_frame(m, root, stack_va(kb, 2)) == f2,
        stack_frame(m, root, stack_va(kb, 3)) == f3,
        f1 != f2 && f1 != f3 && f2 != f3,
    ensures
        stack_mapped(m, a0, a, root, kb),
{
    reveal(stack_mapped);
    assert forall|k: nat| 1 <= k <= STACK_PAGES implies #[trigger] stack_page(
        m,
        a0,
        a,
        root,
        ((kb / 4096 - k) * 4096) as nat,
    ) by {
        assert(((kb / 4096 - k) * 4096) as nat == stack_va(kb, k));
    }
    assert forall|k1: nat, k2: nat|
        1 <= k1 < k2 <= STACK_PAGES implies #[trigger] stack_frame(m, root, ((kb / 4096 - k1) * 4096) as nat)
            != #[trigger] stack_frame(m, root, ((kb / 4096 - k2) * 4096) as nat) by {
        assert(((kb / 4096 - k1) * 4096) as nat == stack_va(kb, k1));
        assert(((kb / 4096 - k2) * 4096) as nat == stack_va(kb, k2));
    }
}

/// The stack's top, the start of `kbegin`'s page, and the three pages
/// below it.
fn stack_pages(kbegin: VAddr) -> (r: (VAddr, Page, Page, Page))
    requires
        kbegin@ >= STACK_PAGES * 4096,
    ensures
        r.0@ == (kbegin@ / 4096) * 4096,
        page_va(r.1) == stack_va(kbegin@, 1),
        page_va(r.2) == stack_va(kbegin@, 2),
        page_va(r.3) == stack_va(kbegin@, 3),
{
    let kpage = Page::down(kbegin);
    (kpage.start_address(), kpage.sub(1), kpage.sub(2), kpage.sub(3))
}

proof fn lemma_stack_finish<M: TableMemory, A: FrameAllocator>(
    m0: M,
    a0: A,
    m1: M,
    a1: A,
    m2: M,
    a2: A,
    m3: M,
    a3: A,
    root: nat,
    kb: nat,
    f1: nat,
    f2: nat,
    f3: nat,
)
    requires
        stack_step(m0, a0, m1, a1, root, stack_va(kb, 1), f1),
        stack_step(m1, a1, m2, a2, root, stack_va(kb, 2), f2),
        stack_step(m2, a2, m3, a3, root, stack_va(kb, 3), f3),
        forall|g: nat| #[trigger] a1.is_free(g) ==> a0.is_free(g),
        forall|g: nat| #[trigger] a2.is_free(g) ==> a1.is_free(g),
        forall|g: nat| #[trigger] a3.is_free(g) ==> a2.is_free(g),
    ensures
        stack_mapped(m3, a0, a3, root, kb),
        mapping_grew(m0, a0, m3, a3, root),
        forall|q: nat|
            !is_mapped(m0, root, q) && !stack_slot(q, kb) ==> !#[trigger] is_mapped(m3, root, q),
{
    lemma_flag_constants();
    lemma_step_facts(m0, a0, m1, a1, root, stack_va(kb, 1), f1);
    lemma_step_facts(m1, a1, m2, a2, root, stack_va(kb, 2), f2);
    lemma_step_facts(m2, a2, m3, a3, root, stack_va(kb, 3), f3);
    lemma_present_entry(f1, DATA_FLAGS);
    lemma_present_entry(f2, DATA_FLAGS);
    let e1 = leaf_entry(m1, root, stack_va(kb, 1));
    let e2 = leaf_entry(m2, root, stack_va(kb, 2));
    lemma_grew_keeps(m1, a1, m2, a2, root, stack_va(kb, 1), e1);
    lemma_grew_keeps(m2, a2, m3, a3, root, stack_va(kb, 1), e1);
    lemma_grew_keeps(m2, a2, m3, a3, root, stack_va(kb, 2), e2);
    lemma_grew_trans(m0, a0, m1, a1, m2, a2, root);
    lemma_grew_trans(m0, a0, m2, a2, m3, a3, root);
    assert(!a2.is_free(f1) && !a3.is_free(f1) && !a3.is_free(f2));
    assert(a0.is_free(f2) && a0.is_free(f3));
    lemma_stack_done(m3, a0, a3, root, kb, f1, f2, f3);
    assert forall|q: nat| !is_mapped(m0, root, q) && !stack_slot(q, kb) implies !#[trigger] is_mapped(
        m3,
        root,
        q,
    ) by {
        assert(!same_slot(q, stack_va(kb, 1)) && !same_slot(q, stack_va(kb, 2)) && !same_slot(q, stack_va(kb, 3))) by {
            if same_slot(q, stack_va(kb, 1)) || same_slot(q, stack_va(kb, 2)) || same_slot(q, stack_va(kb, 3)) {
                assert(stack_slot(q, kb));
            }
        }
        lemma_step_unmapped(m0, a0, m1, a1, root, stack_va(kb, 1), f1, q);
        lemma_step_unmapped(m1, a1, m2, a2, root, stack_va(kb, 2), f2, q);
        lemma_step_unmapped(m2, a2, m3, a3, root, stack_va(kb, 3), f3, q);
    }
}

/// Page `q` uses the same entries as one of the stack pages below
/// `kbegin`'s page.
pub open spec fn stack_slot(q: nat, kb: nat) -> bool {
    exists|k: nat| 1 <= k <= STACK_PAGES && #[trigger] same_slot(q, stack_va(kb, k))
}

/// Stack page `k` below the page of `kbegin`.
pub open spec fn stack_va(kbegin: nat, k: nat) -> nat {
    ((kbegin / 4096 - k) * 4096) as nat
}

proof fn lemma_stack_slots(kbegin: nat, j: nat, k: nat)
    requires
        kbegin / 4096 >= STACK_PAGES,
        kbegin <= u64::MAX,
        1 <= j < k <= STACK_PAGES,
    ensures
        !same_slot(stack_va(kbegin, k), stack_va(kbegin, j)),
        !same_slot(stack_va(kbegin, j), stack_va(kbegin, k)),
{
    let vk = stack_va(kbegin, k);
    let vj = stack_va(kbegin, j);
    assert(vk < vj && (vj - vk) % 4096 == 0 && vj - vk < 0x1_0000_0000_0000 && vj <= u64::MAX) by (nonlinear_arith)
        requires
            1 <= j < k <= 3,
            kbegin / 4096 >= 3,
            kbegin <= u64::MAX,
            vk == (kbegin / 4096 - k) * 4096,
            vj == (kbegin / 4096 - j) * 4096,
    ;
    lemma_slots_differ(vk, vj);
}

#[verifier::rlimit(100)]
#[verifier::spinoff_prover]
pub fn map_stack<A: FrameAllocator, M: TableMemory>(
    table: &PageTable,
    kbegin: VAddr,
    allocator: &mut A,
    mem: &mut M,
) -> (r: Result<VAddr, MapError>)
    requires
        old(allocator).ready(),
        kbegin@ >= STACK_PAGES * 4096,
        tables_sound(*old(mem), *old(allocator), table@),
        frames_usable(*old(mem), *old(allocator)),
    ensures
        final(allocator).ready(),
        forall|g: nat| #[trigger] final(allocator).is_free(g) ==> old(allocator).is_free(g),
        r is Ok ==> mapping_grew(*old(mem), *old(allocator), *final(mem), *final(allocator), table@),
        r matches Ok(top) ==> top@ == (kbegin@ / 4096) * 4096,
        r is Ok ==> stack_mapped(*final(mem), *old(allocator), *final(allocator), table@, kbegin@),
        r is Ok ==> forall|q: nat|
            !is_mapped(*old(mem), table@, q) && !stack_slot(q, kbegin@)
                ==> !#[trigger] is_mapped(*final(mem), table@, q),
        r == Err::<VAddr, MapError>(MapError::OutOfFrames) ==> forall|g: nat|
            !#[trigger] final(allocator).is_free(g),
        r == Err::<VAddr, MapError>(MapError::OutOfFrames) ==> exists|k: nat|
            1 <= k <= STACK_PAGES && (!is_mapped(*final(mem), table@, #[trigger] stack_va(kbegin@, k))
                || is_mapped(*old(mem), table@, stack_va(kbegin@, k))),
        r == Err::<VAddr, MapError>(MapError::AlreadyMapped) ==> exists|k: nat|
            1 <= k <= STACK_PAGES && #[trigger] is_mapped(*old(mem), table@, ((kbegin@ / 4096 - k) * 4096) as nat),
{
    let ghost m0 = *mem;
    let ghost a0 = *allocator;
    let ghost root = table@;
    let ghost kb = kbegin@;
    let (top, p1, p2, p3) = stack_pages(kbegin);
    proof {
        lemma_stack_slots(kb, 1, 2);
        lemma_stack_slots(kb, 1, 3);
        lemma_stack_slots(kb, 2, 3);
    }
    let f1 = match map_stack_page(table, p1, allocator, mem) {
        Ok(f) => f,
        Err(e) => {
            proof {
                assert(!is_mapped(*mem, root, stack_va(kb, 1)) || is_mapped(m0, root, stack_va(kb, 1)));
            }
            return Err(e);
        },
    };
    let ghost m1 = *mem;
    let ghost a1 = *allocator;
    proof {
        lemma_step_facts(m0, a0, m1, a1, root, stack_va(kb, 1), f1@);
        lemma_grew_sound(m0, a0, m1, a1, root);
    }
    let f2 = match map_stack_page(table, p2, allocator, mem) {
        Ok(f) => f,
        Err(e) => {
            proof {
                if !is_mapped(m0, root, stack_va(kb, 2)) {
                    lemma_step_unmapped(m0, a0, m1, a1, root, stack_va(kb, 1), f1@, stack_va(kb, 2));
                }
                assert(!is_mapped(*mem, root, stack_va(kb, 2)) || is_mapped(m0, root, stack_va(kb, 2)));
            }
            return Err(e);
        },
    };
    let ghost m2 = *mem;
    let ghost a2 = *allocator;
    proof {
        lemma_step_facts(m1, a1, m2, a2, root, stack_va(kb, 2), f2@);
        lemma_grew_sound(m1, a1, m2, a2, root);
    }
    let f3 = match map_stack_page(table, p3, allocator, mem) {
        Ok(f) => f,
        Err(e) => {
            proof {
                if !is_mapped(m0, root, stack_va(kb, 3)) {
                    lemma_step_unmapped(m0, a0, m1, a1, root, stack_va(kb, 1), f1@, stack_va(kb, 3));
                    lemma_step_unmapped(m1, a1, m2, a2, root, stack_va(kb, 2), f2@, stack_va(kb, 3));
                }
                assert(!is_mapped(*mem, root, stack_va(kb, 3)) || is_mapped(m0, root, stack_va(kb, 3)));
            }
            assert forall|g: nat| #[trigger] allocator.is_free(g) implies a0.is_free(g) by {
                assert(a2.is_free(g));
                assert(a1.is_free(g));
            }
            return Err(e);
        },
    };
    proof {
        let m3 = *mem;
        let a3 = *allocator;
        lemma_stack_finish(m0, a0, m1, a1, m2, a2, m3, a3, root, kb, f1@, f2@, f3@);
        assert forall|g: nat| #[trigger] a3.is_free(g) implies a0.is_free(g) by {
            assert(a2.is_free(g));
            assert(a1.is_free(g));
        }
    }
    Ok(top)
}

/// Every whole frame of every region is mapped in the linear window with
/// `DATA_FLAGS`.
pub open spec fn window_mapped<M: TableMemory>(m: M, root: nat, rs: Seq<MemoryRegion>) -> bool {
    forall|j: int, f: nat|
        0 <= j < rs.len() && #[trigger] inner_span(rs[j]).contains(f) ==> mapped_to(
            m,
            root,
            (PHYS_MAP + f * 4096) as nat,
            table_entry(f, DATA_FLAGS),
        )
}

/// Page `q` uses the same entries as the window page of a whole frame of
/// some region.
pub open spec fn window_slot(q: nat, rs: Seq<MemoryRegion>) -> bool {
    exists|j: int, g: nat|
        0 <= j < rs.len() && #[trigger] inner_span(rs[j]).contains(g) && #[trigger] same_slot(
            q,
            (g * 4096 + PHYS_MAP) as nat,
        )
}

/// Some region before the `i`-th holds frame `f`.
pub open spec fn covered_before(rs: Seq<MemoryRegion>, i: int, f: nat) -> bool {
    exists|j: int| 0 <= j < i && #[trigger] inner_span(rs[j]).contains(f)
}

/// Frame `f` of region `j` cannot get its window page: the page was
/// mapped already, or an earlier region holds the frame too.
pub open spec fn window_clash<M: TableMemory>(m: M, root: nat, rs: Seq<MemoryRegion>, j: int, f: nat) -> bool {
    &&& 0 <= j < rs.len()
    &&& inner_span(rs[j]).contains(f)
    &&& is_mapped(m, root, (f * 4096 + PHYS_MAP) as nat) || covered_before(rs, j, f)
}

/// Maps every whole frame of every region at `PHYS_MAP` plus its physical
/// address, present, writable, global and no-execute.
pub fn map_free_memory<A: FrameAllocator, M: TableMemory>(
    table: &PageTable,
    regions: &FixedVec<MemoryRegion>,
    allocator: &mut A,
    mem: &mut M,
) -> (r: Result<(), MapError>)
    requires
        old(allocator).ready(),
        regions_in_window(stored_regions(*regions)),
        tables_sound(*old(mem), *old(allocator), table@),
        frames_usable(*old(mem), *old(allocator)),
    ensures
        final(allocator).ready(),
        forall|g: nat| #[trigger] final(allocator).is_free(g) ==> old(allocator).is_free(g),
        r is Ok ==> tables_sound(*final(mem), *final(allocator), table@),
        r is Ok ==> frames_usable(*final(mem), *final(allocator)),
        r is Ok ==> window_mapped(*final(mem), table@, stored_regions(*regions)),
        r == Err::<(), MapError>(MapError::OutOfFrames) ==> forall|g: nat|
            !#[trigger] final(allocator).is_free(g),
        r == Err::<(), MapError>(MapError::OutOfFrames) ==> exists|j: int, f: nat|
            0 <= j < stored_regions(*regions).len() && #[trigger] inner_span(stored_regions(*regions)[j]).contains(f)
                && !upper_levels_present(*final(mem), table@, (f * 4096 + PHYS_MAP) as nat),
        r == Err::<(), MapError>(MapError::AlreadyMapped) ==> exists|j: int, f: nat|
            #[trigger] window_clash(*old(mem), table@, stored_regions(*regions), j, f),
        r is Ok ==> forall|q: nat|
            !is_mapped(*old(mem), table@, q) && !window_slot(q, stored_regions(*regions))
                ==> !#[trigger] is_mapped(*final(mem), table@, q),
{
    proof {
        reveal(mapping_grew);
    }
    proof {
        lemma_flag_constants();
    }
    let ghost m0 = *mem;
    let ghost a0 = *allocator;
    let ghost root = table@;
    let ghost rs = stored_regions(*regions);
    let n = regions_len(regions);
    let mut i: usize = 0;
    while i < n
        invariant
            root == table@,
            a0 == *old(allocator),
            rs == stored_regions(*regions),
            n == rs.len(),
            regions_in_window(rs),
            i <= n,
            leaf_flags_ok(DATA_FLAGS),
            allocator.ready(),
            tables_sound(*mem, *allocator, root),
            frames_usable(*mem, *allocator),
            forall|g: nat| #[trigger] allocator.is_free(g) ==> a0.is_free(g),
            window_mapped(*mem, root, rs.take(i as int)),
            m0 == *old(mem),
            forall|q: nat|
                !is_mapped(m0, root, q) && !window_slot(q, rs) ==> !#[trigger] is_mapped(*mem, root, q),
            forall|g: nat|
                g * 4096 < PHYS_LIMIT && !covered_before(rs, i as int, g) && !is_mapped(m0, root, (g * 4096 + PHYS_MAP) as nat)
                    ==> !#[trigger] is_mapped(*mem, root, (g * 4096 + PHYS_MAP) as nat),
        decreases n - i,
    {
        proof {
            reveal(mapping_grew);
        }
        let reg = regions_get(regions, i).unwrap();
        let ghost mp = *mem;
        let ghost ap = *allocator;
        assert(reg.end@ <= PHYS_LIMIT);
        if let Some(range) = inner_frames(reg) {
            assert(range@.hi * 4096 <= reg.end@);
            match map_frames(table, range, PHYS_MAP, DATA_FLAGS, allocator, mem) {
                Ok(()) => {},
                Err(e) => {
                    assert forall|g: nat| #[trigger] allocator.is_free(g) implies a0.is_free(g) by {
                        assert(ap.is_free(g));
                    }
                    proof {
                        if e == MapError::OutOfFrames {
                            let g = choose|g: nat|
                                range@.contains(g) && !#[trigger] upper_levels_present(*mem, root, (g * 4096 + PHYS_MAP) as nat);
                            assert(inner_span(rs[i as int]).contains(g));
                        }
                        if e == MapError::AlreadyMapped {
                            let g = choose|g: nat|
                                range@.contains(g) && #[trigger] is_mapped(mp, root, (g * 4096 + PHYS_MAP) as nat);
                            assert(inner_span(rs[i as int]).contains(g));
                            assert(g * 4096 < PHYS_LIMIT) by (nonlinear_arith)
                                requires
                                    g < range@.hi,
                                    range@.hi * 4096 <= PHYS_LIMIT,
                            ;
                            assert(window_clash(m0, root, rs, i as int, g));
                        }
                    }
                    return Err(e);
                },
            }
            proof {
                assert forall|g: nat|
                    g * 4096 < PHYS_LIMIT && !covered_before(rs, i + 1, g) && !is_mapped(m0, root, (g * 4096 + PHYS_MAP) as nat)
                        implies !#[trigger] is_mapped(*mem, root, (g * 4096 + PHYS_MAP) as nat) by {
                    assert(!range@.contains(g)) by {
                        if range@.contains(g) {
                            assert(inner_span(rs[i as int]).contains(g));
                        }
                    }
                    assert(!covered_before(rs, i as int, g)) by {
                        if covered_before(rs, i as int, g) {
                            let j2 = choose|j2: int| 0 <= j2 < i && #[trigger] inner_span(rs[j2]).contains(g);
                            assert(0 <= j2 < i + 1);
                        }
                    }
                    assert(g < 0x10_0000_0000);
                    lemma_outside_slots(range@, PHYS_MAP, g);
                    assert(!is_mapped(mp, root, (g * 4096 + PHYS_MAP) as nat));
                }
                assert forall|q: nat|
                    !is_mapped(m0, root, q) && !window_slot(q, rs) implies !#[trigger] is_mapped(*mem, root, q) by {
                    assert(!in_slots(q, range@, PHYS_MAP)) by {
                        if in_slots(q, range@, PHYS_MAP) {
                            let g = choose|g: nat| range@.contains(g) && #[trigger] same_slot(q, (g * 4096 + PHYS_MAP) as nat);
                            assert(inner_span(rs[i as int]).contains(g));
                            assert(window_slot(q, rs));
                        }
                    }
                    assert(!is_mapped(mp, root, q));
                }
                assert forall|g: nat| #[trigger] allocator.is_free(g) implies a0.is_free(g) by {
                    assert(ap.is_free(g));
                }
                assert forall|j: int, f: nat|
                    0 <= j < i + 1 && #[trigger] inner_span(rs.take(i + 1)[j]).contains(f) implies mapped_to(
                    *mem,
                    root,
                    (PHYS_MAP + f * 4096) as nat,
                    table_entry(f, DATA_FLAGS),
                ) by {
                    lemma_present_entry(f, DATA_FLAGS);
                    if j < i {
                        assert(rs.take(i as int)[j] == rs.take(i + 1)[j]);
                        assert(mapped_to(mp, root, (PHYS_MAP + f * 4096) as nat, table_entry(f, DATA_FLAGS)));
                    } else {
                        assert(range@.contains(f));
                        assert((PHYS_MAP + f * 4096) as nat == (f * 4096 + PHYS_MAP) as nat);
                    }
                }
            }
        } else {
            proof {
                assert forall|g: nat|
                    g * 4096 < PHYS_LIMIT && !covered_before(rs, i + 1, g) && !is_mapped(m0, root, (g * 4096 + PHYS_MAP) as nat)
                        implies !#[trigger] is_mapped(*mem, root, (g * 4096 + PHYS_MAP) as nat) by {
                    assert(!covered_before(rs, i as int, g)) by {
                        if covered_before(rs, i as int, g) {
                            let j2 = choose|j2: int| 0 <= j2 < i && #[trigger] inner_span(rs[j2]).contains(g);
                            assert(0 <= j2 < i + 1);
                        }
                    }
                }
                assert forall|j: int, f: nat|
                    0 <= j < i + 1 && #[trigger] inner_span(rs.take(i + 1)[j]).contains(f) implies mapped_to(
                    *mem,
                    root,
                    (PHYS_MAP + f * 4096) as nat,
                    table_entry(f, DATA_FLAGS),
                ) by {
                    assert(j < i);
                    assert(rs.take(i as int)[j] == rs.take(i + 1)[j]);
                }
            }
        }
        i = i + 1;
    }
    assert(rs.take(n as int) =~= rs);
    Ok(())
}

proof fn lemma_early_spans_below_window(rs: Seq<MemoryRegion>, boot_begin: PAddr)
    ensures
        forall|i: int|
            0 <= i < spans_of(rs, boot_begin, true).len() ==> #[trigger] spans_of(
                rs,
                boot_begin,
                true,
            )[i].hi * 4096 <= INITIAL_MAP,
    decreases rs.len(),
{
    if rs.len() > 0 {
        lemma_early_spans_below_window(rs.drop_last(), boot_begin);
        let before = spans_of(rs.drop_last(), boot_begin, true);
        let t = trimmed_above(rs.last(), PAddr(INITIAL_MAP));
        let r = trimmed_above(t, boot_begin);
        if let Some(sp) = early_span(rs.last(), boot_begin) {
            assert(sp == inner_span(r));
            if t.start@ >= INITIAL_MAP {
                assert(r.start@ >= INITIAL_MAP);
                assert(sp.lo * 4096 >= INITIAL_MAP) by (nonlinear_arith)
                    requires
                        r.start@ >= INITIAL_MAP,
                        sp.lo == (r.start@ + 4095) / 4096,
                ;
            }
            assert(r.end@ <= INITIAL_MAP);
            assert(sp.hi * 4096 <= INITIAL_MAP) by (nonlinear_arith)
                requires
                    sp.hi == r.end@ / 4096,
                    r.end@ <= INITIAL_MAP,
            ;
            assert(spans_of(rs, boot_begin, true) == before.push(sp));
        }
    }
}

/// The three pages below `kbegin`'s page each hold a distinct frame that
/// is not free in `a`, mapped present, writable, global and no-execute.
pub open spec fn stack_held<M: TableMemory, A: FrameAllocator>(m: M, a: A, root: nat, kb: nat) -> bool {
    &&& forall|k: nat|
        1 <= k <= STACK_PAGES ==> {
            let va = #[trigger] stack_va(kb, k);
            &&& upper_levels_present(m, root, va)
            &&& leaf_entry(m, root, va) == table_entry(stack_frame(m, root, va), DATA_FLAGS)
            &&& !a.is_free(stack_frame(m, root, va))
        }
    &&& forall|k1: nat, k2: nat|
        1 <= k1 < k2 <= STACK_PAGES ==> stack_frame(m, root, #[trigger] stack_va(kb, k1))
            != stack_frame(m, root, #[trigger] stack_va(kb, k2))
}

proof fn lemma_stack_held<M: TableMemory, A: FrameAllocator>(m: M, a0: A, a: A, root: nat, kb: nat)
    requires
        stack_mapped(m, a0, a, root, kb),
    ensures
        stack_held(m, a, root, kb),
{
    reveal(stack_mapped);
    assert forall|k: nat| 1 <= k <= STACK_PAGES implies {
        let va = #[trigger] stack_va(kb, k);
        &&& upper_levels_present(m, root, va)
        &&& leaf_entry(m, root, va) == table_entry(stack_frame(m, root, va), DATA_FLAGS)
        &&& !a.is_free(stack_frame(m, root, va))
    } by {
        assert(stack_page(m, a0, a, root, ((kb / 4096 - k) * 4096) as nat));
    }
    assert forall|k1: nat, k2: nat| 1 <= k1 < k2 <= STACK_PAGES implies stack_frame(m, root, #[trigger] stack_va(kb, k1))
            != stack_frame(m, root, #[trigger] stack_va(kb, k2)) by {
        assert(stack_frame(m, root, ((kb / 4096 - k1) * 4096) as nat) != stack_frame(m, root, ((kb / 4096 - k2) * 4096) as nat));
    }
}

/// The pages the runtime table is built with never share their entries:
/// no frame lies in two regions or in two kernel segments, no kernel page
/// shares the entries of a window page, and no stack page those of a
/// window or kernel page.
pub open spec fn build_pages_apart(
    rs: Seq<MemoryRegion>,
    segs: (FrameSpan, FrameSpan, FrameSpan),
    kb: nat,
) -> bool {
    &&& forall|j: int, f: nat|
        0 <= j < rs.len() && #[trigger] inner_span(rs[j]).contains(f) ==> !covered_before(rs, j, f)
    &&& forall|f: nat| #[trigger] segs.1.contains(f) ==> !segs.0.contains(f)
    &&& forall|f: nat| #[trigger] segs.2.contains(f) ==> !segs.0.contains(f) && !segs.1.contains(f)
    &&& forall|f: nat|
        segs.0.contains(f) || segs.1.contains(f) || segs.2.contains(f) ==> !window_slot(
            #[trigger] kernel_va(f),
            rs,
        )
    &&& forall|k: nat|
        1 <= k <= STACK_PAGES ==> {
            let va = #[trigger] stack_va(kb, k);
            &&& !window_slot(va, rs)
            &&& !in_slots(va, segs.0, INITIAL_VIRTUAL_OFFSET)
            &&& !in_slots(va, segs.1, INITIAL_VIRTUAL_OFFSET)
            &&& !in_slots(va, segs.2, INITIAL_VIRTUAL_OFFSET)
        }
}

/// Builds the runtime page table before the pivot from an allocator that
/// holds the early memory (see `populate_allocator`): takes a fresh PML4,
/// maps every region in the linear window, maps the kernel segments, and
/// maps the stack below `kbegin`. Returns the PML4's frame, the table and
/// the stack's top.
pub fn build_runtime_table<A: FrameAllocator, M: TableMemory>(
    regions: &FixedVec<MemoryRegion>,
    segments: (FrameRange, FrameRange, FrameRange),
    kbegin: VAddr,
    allocator: &mut A,
    mem: &mut M,
) -> (r: Result<(Frame, PageTable, VAddr), MapError>)
    requires
        old(allocator).ready(),
        regions_in_window(stored_regions(*regions)),
        frames_usable(*old(mem), *old(allocator)),
        segments.0@.hi * 4096 <= INITIAL_MAP,
        segments.1@.hi * 4096 <= INITIAL_MAP,
        segments.2@.hi * 4096 <= INITIAL_MAP,
        kbegin@ >= STACK_PAGES * 4096,
    ensures
        r matches Ok(x) ==> {
            let m = *final(mem);
            let root = x.0@;
            &&& x.1@ == root
            &&& final(allocator).ready()
            &&& tables_sound(m, *final(allocator), root)
            &&& window_mapped(m, root, stored_regions(*regions))
            &&& segment_mapped(m, root, segments.0@, TEXT_FLAGS)
            &&& segment_mapped(m, root, segments.1@, RODATA_FLAGS)
            &&& segment_mapped(m, root, segments.2@, DATA_FLAGS)
            &&& x.2@ == (kbegin@ / 4096) * 4096
            &&& stack_held(m, *final(allocator), root, kbegin@)
            &&& forall|q: nat|
                !window_slot(q, stored_regions(*regions)) && !in_slots(q, segments.0@, INITIAL_VIRTUAL_OFFSET)
                    && !in_slots(q, segments.1@, INITIAL_VIRTUAL_OFFSET) && !in_slots(
                    q,
                    segments.2@,
                    INITIAL_VIRTUAL_OFFSET,
                ) && !stack_slot(q, kbegin@) ==> !#[trigger] is_mapped(m, root, q)
        },
        r == Err::<(Frame, PageTable, VAddr), MapError>(MapError::OutOfFrames) ==> forall|g: nat|
            !#[trigger] final(allocator).is_free(g),
        r == Err::<(Frame, PageTable, VAddr), MapError>(MapError::AlreadyMapped) ==> !build_pages_apart(
            stored_regions(*regions),
            (segments.0@, segments.1@, segments.2@),
            kbegin@,
        ),
{
    proof {
        reveal(mapping_grew);
    }
    proof {
        lemma_flag_constants();
    }
    if !allocator.has_free() {
        return Err(MapError::OutOfFrames);
    }
    let ghost ap = *allocator;
    let (root, table) = create_runtime_pagetable(allocator, mem).unwrap();
    let ghost mc = *mem;
    let ghost rs = stored_regions(*regions);
    let ghost segs = (segments.0@, segments.1@, segments.2@);
    let ghost kb = kbegin@;
    proof {
        assert forall|q: nat| !#[trigger] is_mapped(mc, root@, q) by {
            assert(ent(mc, root@, pml4_index(q)) == 0);
        }
    }
    match map_free_memory(&table, regions, allocator, mem) {
        Ok(()) => {},
        Err(e) => {
            proof {
                if e == MapError::AlreadyMapped && build_pages_apart(rs, segs, kb) {
                    let (j, f) = choose|j: int, f: nat| #[trigger] window_clash(mc, root@, rs, j, f);
                    assert(!is_mapped(mc, root@, (f * 4096 + PHYS_MAP) as nat));
                    assert(false);
                }
            }
            return Err(e);
        },
    }
    let ghost m1 = *mem;
    match map_kernel(&table, segments, allocator, mem) {
        Ok(()) => {},
        Err(e) => {
            proof {
                if e == MapError::AlreadyMapped && build_pages_apart(rs, segs, kb) {
                    let f = choose|f: nat| #[trigger] kernel_clash(m1, root@, segs, f);
                    assert(!is_mapped(mc, root@, kernel_va(f)));
                    assert(!window_slot(kernel_va(f), rs));
                    assert(!is_mapped(m1, root@, kernel_va(f)));
                    assert(false);
                }
            }
            return Err(e);
        },
    }
    let ghost m2 = *mem;
    let ghost ak = *allocator;
    let top = match map_stack(&table, kbegin, allocator, mem) {
        Ok(t) => t,
        Err(e) => {
            proof {
                if e == MapError::AlreadyMapped && build_pages_apart(rs, segs, kb) {
                    let k = choose|k: nat|
                        1 <= k <= STACK_PAGES && #[trigger] is_mapped(m2, root@, ((kb / 4096 - k) * 4096) as nat);
                    let va = stack_va(kb, k);
                    assert(!is_mapped(mc, root@, va));
                    assert(!window_slot(va, rs));
                    assert(!is_mapped(m1, root@, va));
                    assert(!is_mapped(m2, root@, va));
                    assert(false);
                }
            }
            return Err(e);
        },
    };
    proof {
        lemma_stack_held(*mem, ak, *allocator, root@, kbegin@);
        assert forall|q: nat|
            !window_slot(q, rs) && !in_slots(q, segments.0@, INITIAL_VIRTUAL_OFFSET) && !in_slots(
                q,
                segments.1@,
                INITIAL_VIRTUAL_OFFSET,
            ) && !in_slots(q, segments.2@, INITIAL_VIRTUAL_OFFSET) && !stack_slot(q, kb)
                implies !#[trigger] is_mapped(*mem, root@, q) by {
            assert(!is_mapped(mc, root@, q));
            assert(!is_mapped(m1, root@, q));
            assert(!is_mapped(m2, root@, q));
        }
    }
    proof {
        let rs = stored_regions(*regions);
        assert forall|j: int, f: nat|
            0 <= j < rs.len() && #[trigger] inner_span(rs[j]).contains(f) implies mapped_to(
            *mem,
            root@,
            (PHYS_MAP + f * 4096) as nat,
            table_entry(f, DATA_FLAGS),
        ) by {
            lemma_present_entry(f, DATA_FLAGS);
            assert(mapped_to(m1, root@, (PHYS_MAP + f * 4096) as nat, table_entry(f, DATA_FLAGS)));
            assert(mapped_to(m2, root@, (PHYS_MAP + f * 4096) as nat, table_entry(f, DATA_FLAGS)));
        }
        assert forall|f: nat| segments.0@.contains(f) implies #[trigger] mapped_to(
            *mem,
            root@,
            (f * 4096 + INITIAL_VIRTUAL_OFFSET) as nat,
            table_entry(f, TEXT_FLAGS),
        ) by {
            lemma_present_entry(f, TEXT_FLAGS);
            assert(mapped_to(m2, root@, (f * 4096 + INITIAL_VIRTUAL_OFFSET) as nat, table_entry(f, TEXT_FLAGS)));
        }
        assert forall|f: nat| segments.1@.contains(f) implies #[trigger] mapped_to(
            *mem,
            root@,
            (f * 4096 + INITIAL_VIRTUAL_OFFSET) as nat,
            table_entry(f, RODATA_FLAGS),
        ) by {
            lemma_present_entry(f, RODATA_FLAGS);
            assert(mapped_to(m2, root@, (f * 4096 + INITIAL_VIRTUAL_OFFSET) as nat, table_entry(f, RODATA_FLAGS)));
        }
        assert forall|f: nat| segments.2@.contains(f) implies #[trigger] mapped_to(
            *mem,
            root@,
            (f * 4096 + INITIAL_VIRTUAL_OFFSET) as nat,
            table_entry(f, DATA_FLAGS),
        ) by {
            lemma_present_entry(f, DATA_FLAGS);
            assert(mapped_to(m2, root@, (f * 4096 + INITIAL_VIRTUAL_OFFSET) as nat, table_entry(f, DATA_FLAGS)));
        }
    }
    Ok((root, table, top))
}

} // verus!
