//! The local interrupt controller: where its registers live and how they
//! are mapped.
use vstd::prelude::*;

use crate::addr::{PAddr, VAddr};
use crate::allocator::FrameAllocator;
use crate::cpu::apic_base_address;
use crate::frame::{phys_to_virt, Frame, PHYS_LIMIT, PHYS_MAP};
use crate::mapping::{frames_usable, lemma_sound_walk, levels_sound, tables_sound};
use crate::page::Page;
use crate::page_table::{
    is_mapped, leaf_entry, page_va, table_entry, upper_levels_present, MapError, PageTable,
    TableMemory, PT_G, PT_P, PT_PCD, PT_RW,
};

verus! {

/// The local APIC, reached through its registers' virtual address.
#[derive(Clone, Copy, Debug)]
pub struct Apic {
    base_addr: VAddr,
}

impl Apic {
    /// Virtual address of the controller's register block.
    pub closed spec fn base(&self) -> nat {
        self.base_addr@
    }

    /// Maps the controller's registers, found from the `APIC_BASE` value,
    /// as device memory in the linear window, and returns the controller.
    pub fn init<A: FrameAllocator, M: TableMemory>(
        apic_base: u64,
        table: &PageTable,
        allocator: &mut A,
        mem: &mut M,
    ) -> (r: Result<Apic, MapError>)
        requires
            old(allocator).ready(),
            apic_base & !0xFFFu64 < PHYS_LIMIT,
            tables_sound(*old(mem), *old(allocator), table@),
            frames_usable(*old(mem), *old(allocator)),
        ensures
            final(allocator).ready(),
            r matches Ok(a) ==> a.base() == PHYS_MAP + (apic_base & !0xFFFu64),
            r is Ok ==> upper_levels_present(*final(mem), table@, (PHYS_MAP + (apic_base & !0xFFFu64)) as nat),
            r is Ok ==> leaf_entry(*final(mem), table@, (PHYS_MAP + (apic_base & !0xFFFu64)) as nat)
                == table_entry((apic_base & !0xFFFu64) as nat / 4096, PT_P | PT_G | PT_RW | PT_PCD),
            r == Err::<Apic, MapError>(MapError::OutOfFrames) ==> forall|g: nat|
                !#[trigger] final(allocator).is_free(g),
            r == Err::<Apic, MapError>(MapError::OutOfFrames) ==> !upper_levels_present(
                *final(mem),
                table@,
                (PHYS_MAP + (apic_base & !0xFFFu64)) as nat,
            ),
            r == Err::<Apic, MapError>(MapError::AlreadyMapped) <==> is_mapped(
                *old(mem),
                table@,
                (PHYS_MAP + (apic_base & !0xFFFu64)) as nat,
            ),
    {
        proof {
            let ls = choose|l3: Set<nat>, l2: Set<nat>, l1: Set<nat>|
                levels_sound(*old(mem), *old(allocator), table@, l3, l2, l1);
            lemma_sound_walk(
                *old(mem),
                *old(allocator),
                table@,
                ls.0,
                ls.1,
                ls.2,
                (PHYS_MAP + (apic_base & !0xFFFu64)) as nat,
            );
        }
        let paddr = PAddr::from_u64(apic_base_address(apic_base));
        let vaddr = phys_to_virt(paddr);
        let frame = Frame::down(paddr);
        let page = Page::down(vaddr);
        assert(page_va(page) == vaddr@) by (nonlinear_arith)
            requires
                page@ == vaddr@ / 4096,
                vaddr@ == paddr@ + PHYS_MAP,
                paddr@ % 4096 == 0,
                page_va(page) == page@ * 4096,
        ;
        match table.map_device(page, frame, allocator, mem) {
            Ok(()) => Ok(Apic { base_addr: vaddr }),
            Err(e) => Err(e),
        }
    }

    /// Virtual address of the register at byte offset `reg`.
    pub fn register(&self, reg: u64) -> (r: VAddr)
        requires
            self.base() + reg <= u64::MAX,
        ensures
            r@ == self.base() + reg,
    {
        VAddr::from_u64(self.base_addr.as_u64() + reg)
    }
}

} // verus!
