//! Register and descriptor values that install the CPU's protection and
//! interrupt plumbing. The registers themselves are written elsewhere; this
//! module computes what goes into them.
use vstd::prelude::*;

verus! {

/// Kernel code selector.
pub const KERNEL_CS: u16 = 8;

/// Descriptor type: execute/read code segment.
pub const TYPE_C_ER: u64 = 0x0A00_0000_0000;

/// Descriptor type: read/write data segment.
pub const TYPE_D_RW: u64 = 0x0200_0000_0000;

/// Descriptor type: available 64-bit task-state segment.
pub const TYPE_SYS_TSS_AVAILABLE: u64 = 0x0900_0000_0000;

/// Code or data (not system) descriptor.
pub const DESC_S: u64 = 0x1000_0000_0000;

/// Privilege level 0.
pub const DESC_DPL0: u64 = 0;

/// Privilege level 3.
pub const DESC_DPL3: u64 = 0x6000_0000_0000;

/// Present.
pub const DESC_P: u64 = 0x8000_0000_0000;

/// 64-bit code segment.
pub const DESC_L: u64 = 0x20_0000_0000_0000;

/// Limit counted in 4 KiB units.
pub const DESC_G: u64 = 0x80_0000_0000_0000;

/// The bits of a segment descriptor that hold its type and flags.
pub const SEGMENT_ATTR_BITS: u64 = 0x00F0_FF00_0000_0000;

/// Descriptor `d` holds `base`, `limit` and attribute bits `attrs`: limit
/// bits 0..16 at bit 0 and 16..20 at bit 48, base bits 0..24 at bit 16 and
/// 24..32 at bit 56, and exactly `attrs` in the type and flag bits.
pub open spec fn segment_layout(d: u64, base: u32, limit: u32, attrs: u64) -> bool {
    &&& d & 0xFFFF == (limit as u64) & 0xFFFF
    &&& (d >> 16u64) & 0xFF_FFFF == (base as u64) & 0xFF_FFFF
    &&& (d >> 48u64) & 0xF == ((limit as u64) >> 16u64) & 0xF
    &&& (d >> 56u64) & 0xFF == ((base as u64) >> 24u64) & 0xFF
    &&& d & SEGMENT_ATTR_BITS == attrs
}

/// Encodes a segment descriptor.
pub fn segment_descriptor(base: u32, limit: u32, attrs: u64) -> (r: u64)
    requires
        attrs & !SEGMENT_ATTR_BITS == 0,
    ensures
        segment_layout(r, base, limit, attrs),
{
    let b = base as u64;
    let l = limit as u64;
    let r = ((l & 0xFFFF) | ((b & 0xFF_FFFF) << 16u64) | (((l >> 16u64) & 0xF) << 48u64) | (((b
        >> 24u64) & 0xFF) << 56u64)) | attrs;
    assert(r & 0xFFFF == l & 0xFFFF && (r >> 16u64) & 0xFF_FFFF == b & 0xFF_FFFF && (r >> 48u64) & 0xF
        == (l >> 16u64) & 0xF && (r >> 56u64) & 0xFF == (b >> 24u64) & 0xFF && r
        & 0x00F0_FF00_0000_0000u64 == attrs) by (bit_vector)
        requires
            r == ((l & 0xFFFF) | ((b & 0xFF_FFFF) << 16u64) | (((l >> 16u64) & 0xF) << 48u64) | (((b
                >> 24u64) & 0xFF) << 56u64)) | attrs,
            b < 0x1_0000_0000u64,
            l < 0x1_0000_0000u64,
            attrs & !0x00F0_FF00_0000_0000u64 == 0,
    ;
    r
}

/// The seven GDT entries: null, kernel code, kernel data, user data, user
/// code, and the task-state segment split over two slots.
pub fn gdt_entries(tss_addr: u64, tss_size: u32) -> (r: [u64; 7])
    ensures
        r@[0] == 0,
        segment_layout(r@[1], 0, u32::MAX, TYPE_C_ER | DESC_S | DESC_DPL0 | DESC_P | DESC_L | DESC_G),
        segment_layout(r@[2], 0, u32::MAX, TYPE_D_RW | DESC_S | DESC_DPL0 | DESC_P | DESC_G),
        segment_layout(r@[3], 0, u32::MAX, TYPE_D_RW | DESC_S | DESC_DPL3 | DESC_P),
        segment_layout(r@[4], 0, u32::MAX, TYPE_C_ER | DESC_S | DESC_DPL3 | DESC_P | DESC_L | DESC_G),
        segment_layout(
            r@[5],
            (tss_addr & 0xFFFF_FFFF) as u32,
            tss_size,
            TYPE_SYS_TSS_AVAILABLE | DESC_DPL0 | DESC_P,
        ),
        r@[6] == tss_addr >> 32u64,
{
    let low = (tss_addr & 0xFFFF_FFFF) as u32;
    assert((TYPE_C_ER | DESC_S | DESC_DPL0 | DESC_P | DESC_L | DESC_G) & !SEGMENT_ATTR_BITS == 0
        && (TYPE_D_RW | DESC_S | DESC_DPL0 | DESC_P | DESC_G) & !SEGMENT_ATTR_BITS == 0 && (TYPE_D_RW
        | DESC_S | DESC_DPL3 | DESC_P) & !SEGMENT_ATTR_BITS == 0 && (TYPE_C_ER | DESC_S | DESC_DPL3
        | DESC_P | DESC_L | DESC_G) & !SEGMENT_ATTR_BITS == 0 && (TYPE_SYS_TSS_AVAILABLE | DESC_DPL0
        | DESC_P) & !SEGMENT_ATTR_BITS == 0) by (bit_vector);
    [
        0,
        segment_descriptor(0, u32::MAX, TYPE_C_ER | DESC_S | DESC_DPL0 | DESC_P | DESC_L | DESC_G),
        segment_descriptor(0, u32::MAX, TYPE_D_RW | DESC_S | DESC_DPL0 | DESC_P | DESC_G),
        segment_descriptor(0, u32::MAX, TYPE_D_RW | DESC_S | DESC_DPL3 | DESC_P),
        segment_descriptor(0, u32::MAX, TYPE_C_ER | DESC_S | DESC_DPL3 | DESC_P | DESC_L | DESC_G),
        segment_descriptor(low, tss_size, TYPE_SYS_TSS_AVAILABLE | DESC_DPL0 | DESC_P),
        tss_addr >> 32u64,
    ]
}

/// The limit loaded with the GDT: its size in bytes less one.
pub fn gdt_limit() -> (r: u16)
    ensures
        r == 7 * 8 - 1,
{
    7 * 8 - 1
}

/// Vectors 0 to 20 and 32 to 255 have a handler; 21 to 31 are reserved.
pub open spec fn has_gate(vector: nat) -> bool {
    vector <= 20 || (32 <= vector < 256)
}

/// Whether the IDT installs a gate for `vector`.
pub fn vector_has_gate(vector: usize) -> (r: bool)
    ensures
        r == has_gate(vector as nat),
{
    vector <= 20 || (32 <= vector && vector < 256)
}

/// Gate `g` sends its vector to `handler` in code segment `selector`:
/// offset bits 0..16 at bit 0, 16..32 at bit 48 and 32..64 in the upper
/// word, the selector at bit 16, no interrupt stack, type 0xE (64-bit
/// interrupt gate), ring 0, present.
pub open spec fn gate_layout(g: (u64, u64), selector: u16, handler: u64) -> bool {
    &&& g.0 & 0xFFFF == handler & 0xFFFF
    &&& (g.0 >> 16u64) & 0xFFFF == selector as u64
    &&& (g.0 >> 32u64) & 0xFFFF == 0x8E00
    &&& (g.0 >> 48u64) & 0xFFFF == (handler >> 16u64) & 0xFFFF
    &&& g.1 == handler >> 32u64
}

/// Encodes the interrupt gate for a handler in the kernel code segment.
pub fn interrupt_gate(handler: u64) -> (r: (u64, u64))
    ensures
        gate_layout(r, KERNEL_CS, handler),
{
    let sel = KERNEL_CS as u64;
    let lo = (handler & 0xFFFF) | (sel << 16u64) | (0x8E00u64 << 32u64) | (((handler >> 16u64)
        & 0xFFFF) << 48u64);
    assert(lo & 0xFFFF == handler & 0xFFFF && (lo >> 16u64) & 0xFFFF == sel && (lo >> 32u64) & 0xFFFF
        == 0x8E00 && (lo >> 48u64) & 0xFFFF == (handler >> 16u64) & 0xFFFF) by (bit_vector)
        requires
            lo == (handler & 0xFFFF) | (sel << 16u64) | (0x8E00u64 << 32u64) | (((handler >> 16u64)
                & 0xFFFF) << 48u64),
            sel == 8,
    ;
    (lo, handler >> 32u64)
}

/// The limit loaded with the IDT for 256 sixteen-byte gates.
pub fn idt_limit() -> (r: u16)
    ensures
        r == 256 * 16 - 1,
{
    256 * 16 - 1
}

/// The 256 IDT gates: an interrupt gate to `handlers[v]` for each vector
/// that has one, an empty (not present) entry for the reserved vectors.
pub fn idt_entries(handlers: &Vec<u64>) -> (r: Vec<(u64, u64)>)
    requires
        handlers@.len() == 256,
    ensures
        r@.len() == 256,
        forall|v: int|
            0 <= v < 256 ==> if has_gate(v as nat) {
                gate_layout(#[trigger] r@[v], KERNEL_CS, handlers@[v])
            } else {
                r@[v] == (0u64, 0u64)
            },
{
    let mut out: Vec<(u64, u64)> = Vec::new();
    let mut v: usize = 0;
    while v < 256
        invariant
            handlers@.len() == 256,
            v <= 256,
            out@.len() == v,
            forall|w: int|
                0 <= w < v ==> if has_gate(w as nat) {
                    gate_layout(#[trigger] out@[w], KERNEL_CS, handlers@[w])
                } else {
                    out@[w] == (0u64, 0u64)
                },
        decreases 256 - v,
    {
        if vector_has_gate(v) {
            out.push(interrupt_gate(handlers[v]));
        } else {
            out.push((0, 0));
        }
        v = v + 1;
    }
    out
}

/// `STAR` with the call code selector (8, ring 0) in bits 32..48 and the
/// return selector base (16, ring 3) in bits 48..64.
pub fn star_value(star: u64) -> (r: u64)
    ensures
        r == star | (8u64 << 32u64) | ((16u64 | 3) << 48u64),
{
    let call_cs: u64 = 8;
    let ret_cs: u64 = 16 | 3;
    star | (call_cs << 32u64) | (ret_cs << 48u64)
}

/// The RFLAGS bits cleared on syscall entry: all but the reserved bit 1.
pub fn fmask_value() -> (r: u64)
    ensures
        r == !2u64,
{
    !2u64
}

/// `EFER` with system calls enabled (bit 0).
pub fn efer_with_syscall(efer: u64) -> (r: u64)
    ensures
        r == efer | 1,
        r & 1 == 1,
{
    let r = efer | 1;
    assert((efer | 1) & 1 == 1) by (bit_vector);
    r
}

/// `EFER` with no-execute enabled (bit 11).
pub fn efer_with_nx(efer: u64) -> (r: u64)
    ensures
        r == efer | (1u64 << 11u64),
{
    efer | (1u64 << 11u64)
}

/// `CR0` with the FPU in use: MP (bit 1), TS (bit 3) and NE (bit 5) set,
/// EM (bit 2) clear, every other bit kept.
pub fn cr0_with_fpu(cr0: u64) -> (r: u64)
    ensures
        r == (cr0 | 0x2 | 0x8 | 0x20) & !0x4u64,
        r & 0x2 == 0x2,
        r & 0x8 == 0x8,
        r & 0x20 == 0x20,
        r & 0x4 == 0,
{
    let r = (cr0 | 0x2 | 0x8 | 0x20) & !0x4u64;
    assert(r & 0x2 == 0x2 && r & 0x8 == 0x8 && r & 0x20 == 0x20 && r & 0x4 == 0) by (bit_vector)
        requires
            r == (cr0 | 0x2 | 0x8 | 0x20) & !0x4u64,
    ;
    r
}

/// `CR4` with FXSAVE/FXRSTOR enabled (bit 9).
pub fn cr4_with_fxsr(cr4: u64) -> (r: u64)
    ensures
        r == cr4 | (1u64 << 9u64),
{
    cr4 | (1u64 << 9u64)
}

/// `CR4` with global pages enabled (bit 7).
pub fn cr4_with_pge(cr4: u64) -> (r: u64)
    ensures
        r == cr4 | (1u64 << 7u64),
{
    cr4 | (1u64 << 7u64)
}

/// Global-enable bit of the `APIC_BASE` register.
pub const APIC_BASE_GLOBAL_ENABLE: u64 = 1 << 11;

/// Software-enable bit of the spurious-interrupt vector register.
pub const SPIV_SOFTWARE_ENABLE: u32 = 1 << 8;

/// Offset of the spurious-interrupt vector register.
pub const APIC_SPIV: u64 = 0xF0;

/// Physical address of the local APIC's registers: `APIC_BASE` without its
/// low twelve flag bits.
pub fn apic_base_address(apic_base: u64) -> (r: u64)
    ensures
        r == apic_base & !0xFFFu64,
        r % 4096 == 0,
        r <= apic_base,
{
    let r = apic_base & !0xFFFu64;
    assert(r % 4096 == 0 && r <= apic_base) by (bit_vector)
        requires
            r == apic_base & !0xFFFu64,
    ;
    r
}

/// `APIC_BASE` with the controller globally enabled.
pub fn apic_base_enabled(apic_base: u64) -> (r: u64)
    ensures
        r == apic_base | APIC_BASE_GLOBAL_ENABLE,
{
    apic_base | APIC_BASE_GLOBAL_ENABLE
}

} // verus!
