//! Boot memory model: the RAM regions the loader reports, trimmed around the
//! kernel image, collected into a bounded region table.
use vstd::prelude::*;

use crate::addr::PAddr;
use crate::fixed::{region_slots, regions_get, regions_len, regions_new, regions_push, stored_regions};
use fixedvec::FixedVec;

verus! {

/// Offset at which the loader maps the first gigabyte of physical memory
/// in the high half.
pub const INITIAL_VIRTUAL_OFFSET: u64 = 0xFFFF_FFFF_C000_0000;

/// Capacity of the region table.
pub const REGIONS_SIZE: usize = 256;

/// A half-open range `[start, end)` of installable RAM.
#[derive(Clone, Copy, Debug, PartialEq, Eq, Structural)]
pub struct MemoryRegion {
    pub start: PAddr,
    pub end: PAddr,
}

/// `r` with its start raised to `a` when `a` lies strictly inside.
pub open spec fn trimmed_below(r: MemoryRegion, a: PAddr) -> MemoryRegion {
    if r.start@ < a@ && r.end@ > a@ {
        MemoryRegion { start: a, end: r.end }
    } else {
        r
    }
}

/// `r` with its end lowered to `a` when `a` lies strictly inside.
pub open spec fn trimmed_above(r: MemoryRegion, a: PAddr) -> MemoryRegion {
    if r.start@ < a@ && r.end@ > a@ {
        MemoryRegion { start: r.start, end: a }
    } else {
        r
    }
}

impl MemoryRegion {
    /// The region `[start, end)`.
    pub fn new(start: PAddr, end: PAddr) -> (r: MemoryRegion)
        ensures
            r == (MemoryRegion { start, end }),
    {
        MemoryRegion { start, end }
    }

    /// Drops the part below `addr`, when `addr` lies strictly inside.
    pub fn trim_below(&mut self, addr: PAddr)
        ensures
            *final(self) == trimmed_below(*old(self), addr),
            addr@ <= old(self).start@ || addr@ >= old(self).end@ ==> *final(self) == *old(self),
            old(self).start@ < addr@ < old(self).end@ ==> final(self).start == addr
                && final(self).end == old(self).end,
    {
        if self.start.as_u64() < addr.as_u64() && self.end.as_u64() > addr.as_u64() {
            self.start = addr;
        }
    }

    /// Drops the part above `addr`, when `addr` lies strictly inside.
    pub fn trim_above(&mut self, addr: PAddr)
        ensures
            *final(self) == trimmed_above(*old(self), addr),
            addr@ <= old(self).start@ || addr@ >= old(self).end@ ==> *final(self) == *old(self),
            old(self).start@ < addr@ < old(self).end@ ==> final(self).end == addr
                && final(self).start == old(self).start,
    {
        if self.start.as_u64() < addr.as_u64() && self.end.as_u64() > addr.as_u64() {
            self.end = addr;
        }
    }

    /// The region holds no byte.
    pub fn is_empty(&self) -> (r: bool)
        ensures
            r == (self.start@ >= self.end@),
    {
        self.start.as_u64() >= self.end.as_u64()
    }
}

/// What the loader says a range of physical memory is.
#[derive(Clone, Copy, Debug, PartialEq, Eq, Structural)]
pub enum MemoryKind {
    Ram,
    Unusable,
}

/// One entry of the loader's memory map.
#[derive(Clone, Copy, Debug, PartialEq, Eq, Structural)]
pub struct MemoryDescriptor {
    pub base: u64,
    pub length: u64,
    pub kind: MemoryKind,
}

/// The part of descriptor `d` that survives trimming around the kernel
/// image `[kbegin, kend)`.
pub open spec fn kernel_trimmed(d: MemoryDescriptor, kbegin: PAddr, kend: PAddr) -> MemoryRegion {
    trimmed_above(
        trimmed_below(
            MemoryRegion { start: PAddr(d.base), end: PAddr((d.base + d.length) as u64) },
            kend,
        ),
        kbegin,
    )
}

/// The non-empty RAM regions of `ds` after trimming, in order.
pub open spec fn usable_regions(ds: Seq<MemoryDescriptor>, kbegin: PAddr, kend: PAddr) -> Seq<
    MemoryRegion,
>
    decreases ds.len(),
{
    if ds.len() == 0 {
        Seq::empty()
    } else {
        let before = usable_regions(ds.drop_last(), kbegin, kend);
        let r = kernel_trimmed(ds.last(), kbegin, kend);
        if ds.last().kind == MemoryKind::Ram && r.start@ < r.end@ {
            before.push(r)
        } else {
            before
        }
    }
}

/// `s` cut down to its first `n` elements when it is longer.
pub open spec fn at_most(s: Seq<MemoryRegion>, n: nat) -> Seq<MemoryRegion> {
    if s.len() <= n {
        s
    } else {
        s.take(n as int)
    }
}

/// Physical bounds of the kernel image from the high-half addresses of its
/// first and last byte markers: the start rounded down and the end rounded
/// up to a page.
pub fn kernel_image(kbegin_sym: u64, kend_sym: u64) -> (r: (PAddr, PAddr))
    requires
        kbegin_sym >= INITIAL_VIRTUAL_OFFSET,
        kend_sym >= INITIAL_VIRTUAL_OFFSET,
        kend_sym + 4095 <= u64::MAX,
    ensures
        r.0@ == (kbegin_sym / 4096) * 4096 - INITIAL_VIRTUAL_OFFSET,
        r.1@ == ((kend_sym + 4095) / 4096) * 4096 - INITIAL_VIRTUAL_OFFSET,
{
    let mask: u64 = 4095;
    let b = kbegin_sym & !mask;
    let e = (kend_sym + mask) & !mask;
    assert(b == (kbegin_sym / 4096) * 4096) by (bit_vector)
        requires
            b == kbegin_sym & !4095u64,
    ;
    let k = (kend_sym + mask) as u64;
    assert(e == (k / 4096) * 4096) by (bit_vector)
        requires
            e == k & !4095u64,
    ;
    assert(b >= INITIAL_VIRTUAL_OFFSET) by (bit_vector)
        requires
            b == kbegin_sym & !4095u64,
            kbegin_sym >= 0xFFFF_FFFF_C000_0000u64,
    ;
    assert(e >= INITIAL_VIRTUAL_OFFSET) by (bit_vector)
        requires
            e == k & !4095u64,
            k >= 0xFFFF_FFFF_C000_0000u64,
    ;
    (PAddr::from_u64(b - INITIAL_VIRTUAL_OFFSET), PAddr::from_u64(e - INITIAL_VIRTUAL_OFFSET))
}

/// An empty region table whose entries live in `memory`.
pub fn region_table<'a>(memory: &'a mut [MemoryRegion]) -> (r: FixedVec<'a, MemoryRegion>)
    ensures
        stored_regions(r) == Seq::<MemoryRegion>::empty(),
        region_slots(r) == old(memory)@.len(),
{
    regions_new(memory)
}

/// The regions of a region table, as a vector.
pub fn regions_of(table: &FixedVec<MemoryRegion>) -> (r: Vec<MemoryRegion>)
    ensures
        r@ == stored_regions(*table),
{
    let n = regions_len(table);
    let mut out: Vec<MemoryRegion> = Vec::new();
    let mut i: usize = 0;
    while i < n
        invariant
            n == stored_regions(*table).len(),
            i <= n,
            out@ == stored_regions(*table).take(i as int),
        decreases n - i,
    {
        let r = regions_get(table, i).unwrap();
        out.push(r);
        i = i + 1;
        assert(out@ =~= stored_regions(*table).take(i as int));
    }
    assert(out@ =~= stored_regions(*table));
    out
}

/// Walks the loader's memory map into the region table: each RAM range is
/// trimmed below `kend` and above `kbegin`, and kept when something remains.
/// Regions that no longer fit are dropped.
pub fn process_memory_map(
    descriptors: &Vec<MemoryDescriptor>,
    kbegin: PAddr,
    kend: PAddr,
    regions: &mut FixedVec<MemoryRegion>,
)
    requires
        forall|i: int|
            0 <= i < descriptors@.len() ==> #[trigger] descriptors@[i].base + descriptors@[i].length
                <= u64::MAX,
    ensures
        region_slots(*final(regions)) == region_slots(*old(regions)),
        stored_regions(*final(regions)) == at_most(
            stored_regions(*old(regions)) + usable_regions(descriptors@, kbegin, kend),
            region_slots(*old(regions)),
        ),
{
    let ghost start = stored_regions(*regions);
    let ghost cap = region_slots(*regions);
    // the table never holds more than its slots
    let _ = regions_len(regions);
    let mut i: usize = 0;
    while i < descriptors.len()
        invariant
            i <= descriptors@.len(),
            start.len() <= cap,
            region_slots(*regions) == cap,
            forall|j: int|
                0 <= j < descriptors@.len() ==> #[trigger] descriptors@[j].base
                    + descriptors@[j].length <= u64::MAX,
            stored_regions(*regions) == at_most(
                start + usable_regions(descriptors@.take(i as int), kbegin, kend),
                cap,
            ),
        decreases descriptors@.len() - i,
    {
        let d = descriptors[i];
        assert(descriptors@.take(i as int + 1).drop_last() =~= descriptors@.take(i as int));
        let ghost before = start + usable_regions(descriptors@.take(i as int), kbegin, kend);
        if d.kind == MemoryKind::Ram {
            let mut reg = MemoryRegion::new(
                PAddr::from_u64(d.base),
                PAddr::from_u64(d.base + d.length),
            );
            reg.trim_below(kend);
            reg.trim_above(kbegin);
            if !reg.is_empty() {
                let _ = regions_push(regions, reg);
                assert(before.push(reg) =~= start + usable_regions(
                    descriptors@.take(i as int + 1),
                    kbegin,
                    kend,
                ));
                proof {
                    if before.len() < cap {
                        assert(stored_regions(*regions) =~= at_most(before.push(reg), cap));
                    } else {
                        assert(at_most(before.push(reg), cap) =~= at_most(before, cap));
                    }
                }
            }
        }
        i = i + 1;
    }
    assert(descriptors@.take(i as int) =~= descriptors@);
}

} // verus!
