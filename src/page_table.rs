//! The four-level x86-64 page-table engine: per-page mapping with attribute
//! flags, creating intermediate tables on the way down.
use vstd::prelude::*;

use crate::addr::PAddr;
use crate::allocator::FrameAllocator;
use crate::frame::{Frame, PAGE_SIZE};
use crate::page::Page;

verus! {

/// Present.
pub const PT_P: u64 = 0x1;

/// Writable.
pub const PT_RW: u64 = 0x2;

/// Accessible from user mode.
pub const PT_US: u64 = 0x4;

/// Write-through caching.
pub const PT_PWT: u64 = 0x8;

/// Caching disabled.
pub const PT_PCD: u64 = 0x10;

/// Accessed.
pub const PT_A: u64 = 0x20;

/// Dirty.
pub const PT_D: u64 = 0x40;

/// Global: kept in the TLB across address-space switches.
pub const PT_G: u64 = 0x100;

/// Execute disable.
pub const PT_XD: u64 = 0x8000_0000_0000_0000;

/// The bits of an entry that hold the physical address it points at.
pub const ADDRESS_MASK: u64 = 0x000F_FFFF_FFFF_F000;

/// Frames whose start address fits the address field of an entry.
pub const PHYS_FRAME_LIMIT: u64 = 0x100_0000_0000;

/// Number of entries in one table.
pub const ENTRIES: usize = 512;

/// Physical memory as the engine sees it: pages of 512 entries, each page
/// reachable through a window that the caller provides.
pub trait TableMemory: Sized {
    /// Table frame number `table` can be read and written through the window.
    spec fn reaches(&self, table: u64) -> bool;

    /// Entry `index` of the table held in frame number `table`.
    spec fn entry(&self, table: u64, index: u64) -> u64;

    /// Reads one entry.
    fn read(&self, table: Frame, index: usize) -> (r: u64)
        requires
            self.reaches(table@ as u64),
            index < ENTRIES,
        ensures
            r == self.entry(table@ as u64, index as u64),
    ;

    /// Writes one entry and nothing else.
    fn write(&mut self, table: Frame, index: usize, value: u64)
        requires
            old(self).reaches(table@ as u64),
            index < ENTRIES,
        ensures
            forall|t: u64| #[trigger] final(self).reaches(t) == old(self).reaches(t),
            forall|t: u64, i: u64|
                #[trigger] final(self).entry(t, i) == if t == table@ && i == index {
                    value
                } else {
                    old(self).entry(t, i)
                },
    ;

    /// Clears every entry of one table and nothing else.
    fn zero(&mut self, table: Frame)
        requires
            old(self).reaches(table@ as u64),
        ensures
            forall|t: u64| #[trigger] final(self).reaches(t) == old(self).reaches(t),
            forall|t: u64, i: u64|
                #[trigger] final(self).entry(t, i) == if t == table@ {
                    0
                } else {
                    old(self).entry(t, i)
                },
    ;
}

/// Table frame `t` is reachable in `m`.
pub open spec fn reach<M: TableMemory>(m: M, t: nat) -> bool {
    t <= u64::MAX && m.reaches(t as u64)
}

/// Entry `i` of table frame `t` in `m`; zero where no such entry exists.
pub open spec fn ent<M: TableMemory>(m: M, t: nat, i: nat) -> u64 {
    if t <= u64::MAX && i <= u64::MAX {
        m.entry(t as u64, i as u64)
    } else {
        0
    }
}

/// Reads one entry.
fn read_entry<M: TableMemory>(mem: &M, table: Frame, index: usize) -> (r: u64)
    requires
        reach(*mem, table@),
        index < ENTRIES,
    ensures
        r == ent(*mem, table@, index as nat),
{
    mem.read(table, index)
}

/// Writes one entry and nothing else.
fn write_entry<M: TableMemory>(mem: &mut M, table: Frame, index: usize, value: u64)
    requires
        reach(*old(mem), table@),
        index < ENTRIES,
    ensures
        forall|t: nat| #[trigger] reach(*final(mem), t) == reach(*old(mem), t),
        forall|t: nat, i: nat|
            #[trigger] ent(*final(mem), t, i) == if t == table@ && i == index {
                value
            } else {
                ent(*old(mem), t, i)
            },
{
    mem.write(table, index, value);
}

/// Clears every entry of one table and nothing else.
pub(crate) fn zero_table<M: TableMemory>(mem: &mut M, table: Frame)
    requires
        reach(*old(mem), table@),
    ensures
        forall|t: nat| #[trigger] reach(*final(mem), t) == reach(*old(mem), t),
        forall|t: nat, i: nat|
            #[trigger] ent(*final(mem), t, i) == if t == table@ {
                0
            } else {
                ent(*old(mem), t, i)
            },
{
    mem.zero(table);
}

/// Index into the PML4 for virtual address `va`.
pub open spec fn pml4_index(va: nat) -> nat {
    (va / 0x80_0000_0000) % 512
}

/// Index into the PDPT for virtual address `va`.
pub open spec fn pdpt_index(va: nat) -> nat {
    (va / 0x4000_0000) % 512
}

/// Index into the PD for virtual address `va`.
pub open spec fn pd_index(va: nat) -> nat {
    (va / 0x20_0000) % 512
}

/// Index into the PT for virtual address `va`.
pub open spec fn pt_index(va: nat) -> nat {
    (va / 0x1000) % 512
}

/// The frame an entry points at.
pub open spec fn entry_frame(e: u64) -> nat {
    ((e & ADDRESS_MASK) >> 12u64) as nat
}

/// The entry that points at frame `frame` with attribute bits `flags`.
pub open spec fn table_entry(frame: nat, flags: u64) -> u64 {
    ((frame * 4096) as u64) | flags
}

/// The PDPT that the walk for `va` reaches from `root`.
pub open spec fn pdpt_of<M: TableMemory>(m: M, root: nat, va: nat) -> nat {
    entry_frame(ent(m, root, pml4_index(va)))
}

/// The PD that the walk for `va` reaches from `root`.
pub open spec fn pd_of<M: TableMemory>(m: M, root: nat, va: nat) -> nat {
    entry_frame(ent(m, pdpt_of(m, root, va), pdpt_index(va)))
}

/// The PT that the walk for `va` reaches from `root`.
pub open spec fn pt_of<M: TableMemory>(m: M, root: nat, va: nat) -> nat {
    entry_frame(ent(m, pd_of(m, root, va), pd_index(va)))
}

/// The three entries above the leaf for `va` are all present.
pub open spec fn upper_levels_present<M: TableMemory>(m: M, root: nat, va: nat) -> bool {
    &&& ent(m, root, pml4_index(va)) != 0
    &&& ent(m, pdpt_of(m, root, va), pdpt_index(va)) != 0
    &&& ent(m, pd_of(m, root, va), pd_index(va)) != 0
}

/// The leaf entry for `va`.
pub open spec fn leaf_entry<M: TableMemory>(m: M, root: nat, va: nat) -> u64 {
    ent(m, pt_of(m, root, va), pt_index(va))
}

/// Page `va` has a leaf entry in place.
pub open spec fn is_mapped<M: TableMemory>(m: M, root: nat, va: nat) -> bool {
    upper_levels_present(m, root, va) && leaf_entry(m, root, va) != 0
}

/// Entry `index` of table `t` is one of the four the walk for `va` reads.
pub open spec fn on_walk<M: TableMemory>(m: M, root: nat, va: nat, t: nat, index: nat) -> bool {
    ||| t == root && index == pml4_index(va)
    ||| t == pdpt_of(m, root, va) && index == pdpt_index(va)
    ||| t == pd_of(m, root, va) && index == pd_index(va)
    ||| t == pt_of(m, root, va) && index == pt_index(va)
}

/// Every table the walk for `va` already passes through is reachable and
/// not free.
pub open spec fn walk_in_use<M: TableMemory, A: FrameAllocator>(
    m: M,
    a: A,
    root: nat,
    va: nat,
) -> bool {
    &&& reach(m, root) && !a.is_free(root)
    &&& ent(m, root, pml4_index(va)) != 0 ==> reach(m, pdpt_of(m, root, va)) && !a.is_free(
        pdpt_of(m, root, va),
    )
    &&& ent(m, root, pml4_index(va)) != 0 && ent(m, pdpt_of(m, root, va), pdpt_index(va)) != 0
        ==> reach(m, pd_of(m, root, va)) && !a.is_free(pd_of(m, root, va))
    &&& upper_levels_present(m, root, va) ==> reach(m, pt_of(m, root, va)) && !a.is_free(
        pt_of(m, root, va),
    )
}

/// An entry that was empty or is new: a fresh table, taken from the free
/// frames, installed present and writable.
pub open spec fn fresh_table_entry<A: FrameAllocator>(a: A, e: u64) -> bool {
    e == table_entry(entry_frame(e), PT_P | PT_RW) && a.is_free(entry_frame(e))
}

/// Why a page could not be mapped.
#[derive(Clone, Copy, Debug, PartialEq, Eq, Structural)]
pub enum MapError {
    /// A table was needed and the allocator had no frame left.
    OutOfFrames,
    /// The page already has a leaf entry.
    AlreadyMapped,
}

pub proof fn lemma_entry_encoding(x: u64, fl: u64)
    requires
        x < 0x100_0000_0000,
        fl & 0x000F_FFFF_FFFF_F000 == 0,
    ensures
        x << 12u64 == x * 4096,
        ((x << 12u64) | fl) & ADDRESS_MASK == x << 12u64,
        ((((x << 12u64) | fl) & ADDRESS_MASK) >> 12u64) == x,
        fl & 3 == 3 ==> (x << 12u64) | fl != 0,
{
    assert(x << 12u64 == x * 4096) by (bit_vector)
        requires
            x < 0x100_0000_0000u64,
    ;
    assert(((x << 12u64) | fl) & 0x000F_FFFF_FFFF_F000u64 == x << 12u64) by (bit_vector)
        requires
            x < 0x100_0000_0000u64,
            fl & 0x000F_FFFF_FFFF_F000u64 == 0,
    ;
    assert(((((x << 12u64) | fl) & 0x000F_FFFF_FFFF_F000u64) >> 12u64) == x) by (bit_vector)
        requires
            x < 0x100_0000_0000u64,
            fl & 0x000F_FFFF_FFFF_F000u64 == 0,
    ;
    assert(fl & 3 == 3 ==> (x << 12u64) | fl != 0) by (bit_vector);
}

/// The frame an entry points at, as an executable value.
fn frame_of_entry(e: u64) -> (r: Frame)
    ensures
        r@ == entry_frame(e),
        r@ < PHYS_FRAME_LIMIT,
{
    let a = e & ADDRESS_MASK;
    assert((a >> 12u64) == a / 4096) by (bit_vector);
    assert(a >> 12u64 < 0x100_0000_0000u64) by (bit_vector)
        requires
            a == e & 0x000F_FFFF_FFFF_F000u64,
    ;
    Frame::down(PAddr::from_u64(a))
}

/// The entry for table `index` of the walk below `table`: read when
/// present, else a fresh zeroed table taken from `allocator` and installed
/// present and writable.
fn next_table<A: FrameAllocator, M: TableMemory>(
    table: Frame,
    index: usize,
    allocator: &mut A,
    mem: &mut M,
) -> (r: Result<Frame, MapError>)
    requires
        old(allocator).ready(),
        index < ENTRIES,
        reach(*old(mem), table@),
        !old(allocator).is_free(table@),
        ent(*old(mem), table@, index as nat) != 0 ==> reach(*old(mem), 
            entry_frame(ent(*old(mem), table@, index as nat)),
        ) && !old(allocator).is_free(entry_frame(ent(*old(mem), table@, index as nat))),
        forall|g: nat| old(allocator).is_free(g) ==> g < PHYS_FRAME_LIMIT && reach(*old(mem), g),
    ensures
        final(allocator).ready(),
        forall|t: nat| #[trigger] reach(*final(mem), t) == reach(*old(mem), t),
        forall|g: nat| #[trigger] final(allocator).is_free(g) ==> old(allocator).is_free(g),
        ent(*old(mem), table@, index as nat) != 0 ==> {
            &&& r matches Ok(child) && child@ == entry_frame(ent(*old(mem), table@, index as nat))
            &&& *final(mem) == *old(mem)
            &&& forall|g: nat| #[trigger] final(allocator).is_free(g) == old(allocator).is_free(g)
        },
        r is Err ==> r == Err::<Frame, MapError>(MapError::OutOfFrames) && ent(*old(mem), 
            table@,
            index as nat,
        ) == 0 && *final(mem) == *old(mem) && forall|g: nat|
            !#[trigger] final(allocator).is_free(g) && !old(allocator).is_free(g),
        r matches Ok(child) ==> {
            &&& ent(*final(mem), table@, index as nat) != 0
            &&& entry_frame(ent(*final(mem), table@, index as nat)) == child@
            &&& reach(*final(mem), child@)
            &&& !final(allocator).is_free(child@)
        },
        r matches Ok(child) ==> ent(*old(mem), table@, index as nat) == 0 ==> {
            &&& fresh_table_entry(*old(allocator), ent(*final(mem), table@, index as nat))
            &&& forall|g: nat|
                g != child@ ==> #[trigger] final(allocator).is_free(g) == old(allocator).is_free(g)
            &&& forall|t: nat, i: nat|
                #[trigger] ent(*final(mem), t, i) == if t == table@ && i == index {
                    table_entry(child@, PT_P | PT_RW)
                } else if t == child@ {
                    0
                } else {
                    ent(*old(mem), t, i)
                }
        },
{
    let e = read_entry(mem, table, index);
    if e != 0 {
        return Ok(frame_of_entry(e));
    }
    match allocator.allocate_manual() {
        None => Err(MapError::OutOfFrames),
        Some(child) => {
            zero_table(mem, child);
            let start = child.start_address().as_u64();
            proof {
                assert((1u64 | 2u64) & 0x000F_FFFF_FFFF_F000u64 == 0) by (bit_vector);
                assert((1u64 | 2u64) & 3 == 3) by (bit_vector);
                lemma_entry_encoding(child@ as u64, PT_P | PT_RW);
            }
            let value = start | PT_P | PT_RW;
            assert(value == table_entry(child@, PT_P | PT_RW)) by {
                assert(start | PT_P | PT_RW == start | (PT_P | PT_RW)) by (bit_vector);
            }
            write_entry(mem, table, index, value);
            Ok(child)
        },
    }
}

/// A four-level page table, identified by the frame that holds its PML4.
#[derive(Clone, Copy, Debug)]
pub struct PageTable {
    root: Frame,
}

impl View for PageTable {
    type V = nat;

    /// Frame number of the PML4.
    closed spec fn view(&self) -> nat {
        self.root@
    }
}

/// The virtual address at which `page` starts.
pub open spec fn page_va(page: Page) -> nat {
    (page@ * PAGE_SIZE) as nat
}

/// Entry position `(t, index)` keeps its value from `m0` in `m1`.
pub open spec fn same_entry<M: TableMemory>(m0: M, m1: M, t: nat, index: nat) -> bool {
    ent(m1, t, index) == ent(m0, t, index)
}

impl PageTable {
    /// The page table whose PML4 is held in frame `root`.
    pub fn new(root: Frame) -> (r: PageTable)
        ensures
            r@ == root@,
    {
        PageTable { root }
    }

    /// The frame that holds the PML4.
    pub fn root(&self) -> (r: Frame)
        ensures
            r@ == self@,
    {
        self.root
    }

    /// Maps `page` to `frame` with leaf attributes `flags`. Missing
    /// intermediate tables are taken from `allocator`, zeroed, and installed
    /// present and writable.
    ///
    /// Both failures are reported, not raised: the allocator running dry
    /// (`OutOfFrames`, only when a level of the walk is missing and no frame
    /// is left) and a page that already has a leaf (`AlreadyMapped`, nothing
    /// changed). Allocation failure is absence, and the caller decides that
    /// it is fatal; the bring-up sequence aborts on either error.
    pub fn map<A: FrameAllocator, M: TableMemory>(
        &self,
        page: Page,
        frame: Frame,
        flags: u64,
        allocator: &mut A,
        mem: &mut M,
    ) -> (r: Result<(), MapError>)
        requires
            old(allocator).ready(),
            flags & ADDRESS_MASK == 0,
            frame@ < PHYS_FRAME_LIMIT,
            forall|g: nat| old(allocator).is_free(g) ==> g < PHYS_FRAME_LIMIT && reach(*old(mem), g),
            walk_in_use(*old(mem), *old(allocator), self@, page_va(page)),
        ensures
            final(allocator).ready(),
            forall|t: nat| #[trigger] reach(*final(mem), t) == reach(*old(mem), t),
            forall|g: nat| #[trigger] final(allocator).is_free(g) ==> old(allocator).is_free(g),
            forall|t: nat, i: nat|
                !old(allocator).is_free(t) && ent(*old(mem), t, i) != 0
                    ==> #[trigger] ent(*final(mem), t, i) == ent(*old(mem), t, i),
            forall|t: nat, i: nat|
                #[trigger] ent(*final(mem), t, i) != ent(*old(mem), t, i)
                    ==> old(allocator).is_free(t) || on_walk(*final(mem), self@, page_va(page), t, i),
            forall|t: nat, i: nat|
                old(allocator).is_free(t) && !final(allocator).is_free(t) ==> #[trigger] ent(*final(mem), t, i) == 0
                    || on_walk(*final(mem), self@, page_va(page), t, i),
            r == Err::<(), MapError>(MapError::AlreadyMapped) <==> is_mapped(
                *old(mem),
                self@,
                page_va(page),
            ),
            r == Err::<(), MapError>(MapError::AlreadyMapped) ==> *final(mem) == *old(mem) && forall|
                g: nat,
            | #[trigger] final(allocator).is_free(g) == old(allocator).is_free(g),
            r == Err::<(), MapError>(MapError::OutOfFrames) ==> forall|g: nat|
                !#[trigger] final(allocator).is_free(g),
            r == Err::<(), MapError>(MapError::OutOfFrames) ==> !upper_levels_present(
                *old(mem),
                self@,
                page_va(page),
            ),
            r == Err::<(), MapError>(MapError::OutOfFrames) ==> !upper_levels_present(
                *final(mem),
                self@,
                page_va(page),
            ),
            forall|g: nat|
                old(allocator).is_free(g) && !#[trigger] final(allocator).is_free(g) ==> g
                    == pdpt_of(*final(mem), self@, page_va(page)) || g == pd_of(*final(mem), self@, page_va(page))
                    || g == pt_of(*final(mem), self@, page_va(page)),
            r is Ok ==> {
                let va = page_va(page);
                let m = *final(mem);
                &&& upper_levels_present(m, self@, va)
                &&& leaf_entry(m, self@, va) == table_entry(frame@, flags)
                &&& walk_in_use(m, *final(allocator), self@, va)
                &&& same_entry(*old(mem), m, self@, pml4_index(va)) || fresh_table_entry(
                    *old(allocator),
                    ent(m, self@, pml4_index(va)),
                )
                &&& (!old(allocator).is_free(pdpt_of(m, self@, va)) && same_entry(*old(mem), m, pdpt_of(m, self@, va), pdpt_index(va)))
                    || fresh_table_entry(
                    *old(allocator),
                    ent(m, pdpt_of(m, self@, va), pdpt_index(va)),
                )
                &&& (!old(allocator).is_free(pd_of(m, self@, va)) && same_entry(*old(mem), m, pd_of(m, self@, va), pd_index(va))) || fresh_table_entry(
                    *old(allocator),
                    ent(m, pd_of(m, self@, va), pd_index(va)),
                )
                &&& old(allocator).is_free(pdpt_of(m, self@, va)) && old(allocator).is_free(pd_of(m, self@, va)) ==> pdpt_of(m, self@, va) != pd_of(m, self@, va)
                &&& old(allocator).is_free(pdpt_of(m, self@, va)) && old(allocator).is_free(pt_of(m, self@, va)) ==> pdpt_of(m, self@, va) != pt_of(m, self@, va)
                &&& old(allocator).is_free(pd_of(m, self@, va)) && old(allocator).is_free(pt_of(m, self@, va)) ==> pd_of(m, self@, va) != pt_of(m, self@, va)
                &&& forall|g: nat|
                    old(allocator).is_free(g) && !#[trigger] final(allocator).is_free(g) ==> g
                        == pdpt_of(m, self@, va) || g == pd_of(m, self@, va) || g == pt_of(
                        m,
                        self@,
                        va,
                    )
            },
    {
        let ghost va = page_va(page);
        let ghost m0 = *mem;
        let ghost a0 = *allocator;
        let addr = page.start_address().as_u64();
        let i4 = ((addr >> 39u64) & 0x1FF) as usize;
        let i3 = ((addr >> 30u64) & 0x1FF) as usize;
        let i2 = ((addr >> 21u64) & 0x1FF) as usize;
        let i1 = ((addr >> 12u64) & 0x1FF) as usize;
        assert((addr >> 39u64) & 0x1FF == (addr / 0x80_0000_0000) % 512) by (bit_vector);
        assert((addr >> 30u64) & 0x1FF == (addr / 0x4000_0000) % 512) by (bit_vector);
        assert((addr >> 21u64) & 0x1FF == (addr / 0x20_0000) % 512) by (bit_vector);
        assert((addr >> 12u64) & 0x1FF == (addr / 0x1000) % 512) by (bit_vector);
        assert(i4 == pml4_index(va) && i3 == pdpt_index(va) && i2 == pd_index(va) && i1
            == pt_index(va));
        let pdpt = match next_table(self.root, i4, allocator, mem) {
            Ok(t) => t,
            Err(e) => {
                return Err(e);
            },
        };
        let ghost m1 = *mem;
        let ghost a1 = *allocator;
        assert(pdpt@ == pdpt_of(m1, self@, va));
        let pd = match next_table(pdpt, i3, allocator, mem) {
            Ok(t) => t,
            Err(e) => {
                return Err(e);
            },
        };
        let ghost m2 = *mem;
        let ghost a2 = *allocator;
        assert(ent(m2, self@, i4 as nat) == ent(m1, self@, i4 as nat));
        assert(pd@ == pd_of(m2, self@, va));
        let pt = match next_table(pd, i2, allocator, mem) {
            Ok(t) => t,
            Err(e) => {
                return Err(e);
            },
        };
        let ghost m3 = *mem;
        assert(ent(m3, self@, i4 as nat) == ent(m2, self@, i4 as nat));
        assert(ent(m3, pdpt@, i3 as nat) == ent(m2, pdpt@, i3 as nat));
        assert(pt@ == pt_of(m3, self@, va));
        let leaf = read_entry(mem, pt, i1);
        if leaf != 0 {
            return Err(MapError::AlreadyMapped);
        }
        let start = frame.start_address().as_u64();
        proof {
            lemma_entry_encoding(frame@ as u64, flags);
        }
        write_entry(mem, pt, i1, start | flags);
        Ok(())
    }

    /// Maps `page` to device memory at `frame`: present, global, writable
    /// and uncached. Otherwise as `map`.
    pub fn map_device<A: FrameAllocator, M: TableMemory>(
        &self,
        page: Page,
        frame: Frame,
        allocator: &mut A,
        mem: &mut M,
    ) -> (r: Result<(), MapError>)
        requires
            old(allocator).ready(),
            frame@ < PHYS_FRAME_LIMIT,
            forall|g: nat| old(allocator).is_free(g) ==> g < PHYS_FRAME_LIMIT && reach(*old(mem), g),
            walk_in_use(*old(mem), *old(allocator), self@, page_va(page)),
        ensures
            final(allocator).ready(),
            forall|t: nat| #[trigger] reach(*final(mem), t) == reach(*old(mem), t),
            forall|g: nat| #[trigger] final(allocator).is_free(g) ==> old(allocator).is_free(g),
            forall|t: nat, i: nat|
                !old(allocator).is_free(t) && ent(*old(mem), t, i) != 0
                    ==> #[trigger] ent(*final(mem), t, i) == ent(*old(mem), t, i),
            forall|t: nat, i: nat|
                #[trigger] ent(*final(mem), t, i) != ent(*old(mem), t, i)
                    ==> old(allocator).is_free(t) || on_walk(*final(mem), self@, page_va(page), t, i),
            forall|t: nat, i: nat|
                old(allocator).is_free(t) && !final(allocator).is_free(t) ==> #[trigger] ent(*final(mem), t, i) == 0
                    || on_walk(*final(mem), self@, page_va(page), t, i),
            r == Err::<(), MapError>(MapError::AlreadyMapped) <==> is_mapped(
                *old(mem),
                self@,
                page_va(page),
            ),
            r == Err::<(), MapError>(MapError::AlreadyMapped) ==> *final(mem) == *old(mem) && forall|
                g: nat,
            | #[trigger] final(allocator).is_free(g) == old(allocator).is_free(g),
            r == Err::<(), MapError>(MapError::OutOfFrames) ==> forall|g: nat|
                !#[trigger] final(allocator).is_free(g),
            r == Err::<(), MapError>(MapError::OutOfFrames) ==> !upper_levels_present(
                *old(mem),
                self@,
                page_va(page),
            ),
            r == Err::<(), MapError>(MapError::OutOfFrames) ==> !upper_levels_present(
                *final(mem),
                self@,
                page_va(page),
            ),
            forall|g: nat|
                old(allocator).is_free(g) && !#[trigger] final(allocator).is_free(g) ==> g
                    == pdpt_of(*final(mem), self@, page_va(page)) || g == pd_of(*final(mem), self@, page_va(page))
                    || g == pt_of(*final(mem), self@, page_va(page)),
            r is Ok ==> {
                let va = page_va(page);
                let m = *final(mem);
                &&& upper_levels_present(m, self@, va)
                &&& leaf_entry(m, self@, va) == table_entry(frame@, (PT_P | PT_G | PT_RW | PT_PCD))
                &&& walk_in_use(m, *final(allocator), self@, va)
                &&& same_entry(*old(mem), m, self@, pml4_index(va)) || fresh_table_entry(
                    *old(allocator),
                    ent(m, self@, pml4_index(va)),
                )
                &&& (!old(allocator).is_free(pdpt_of(m, self@, va)) && same_entry(*old(mem), m, pdpt_of(m, self@, va), pdpt_index(va)))
                    || fresh_table_entry(
                    *old(allocator),
                    ent(m, pdpt_of(m, self@, va), pdpt_index(va)),
                )
                &&& (!old(allocator).is_free(pd_of(m, self@, va)) && same_entry(*old(mem), m, pd_of(m, self@, va), pd_index(va))) || fresh_table_entry(
                    *old(allocator),
                    ent(m, pd_of(m, self@, va), pd_index(va)),
                )
                &&& old(allocator).is_free(pdpt_of(m, self@, va)) && old(allocator).is_free(pd_of(m, self@, va)) ==> pdpt_of(m, self@, va) != pd_of(m, self@, va)
                &&& old(allocator).is_free(pdpt_of(m, self@, va)) && old(allocator).is_free(pt_of(m, self@, va)) ==> pdpt_of(m, self@, va) != pt_of(m, self@, va)
                &&& old(allocator).is_free(pd_of(m, self@, va)) && old(allocator).is_free(pt_of(m, self@, va)) ==> pd_of(m, self@, va) != pt_of(m, self@, va)
                &&& forall|g: nat|
                    old(allocator).is_free(g) && !#[trigger] final(allocator).is_free(g) ==> g
                        == pdpt_of(m, self@, va) || g == pd_of(m, self@, va) || g == pt_of(
                        m,
                        self@,
                        va,
                    )
            },
    {
        assert((1u64 | 0x100u64 | 2u64 | 0x10u64) & 0x000F_FFFF_FFFF_F000u64 == 0) by (bit_vector);
        self.map(page, frame, PT_P | PT_G | PT_RW | PT_PCD, allocator, mem)
    }
}

} // verus!
