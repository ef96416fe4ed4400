//! Page-aligned physical frames, virtual pages and half-open frame ranges.
use vstd::prelude::*;

use crate::addr::{PAddr, VAddr};

verus! {

pub const PAGE_SHIFT: u64 = 12;

pub const PAGE_SIZE: u64 = 4096;

/// Number of distinct 4 KiB frames (or pages) in a 64-bit address space.
pub const FRAME_LIMIT: u64 = 0x10_0000_0000_0000;

/// Base of the linear window through which all physical memory is reachable
/// once the runtime page table is live.
pub const PHYS_MAP: u64 = 0xFFFF_FF80_0000_0000;

/// Physical addresses at or above this bound are outside the linear window.
pub const PHYS_LIMIT: u64 = 0x80_0000_0000;

/// Virtual address of physical `p` inside the linear window.
pub fn phys_to_virt(p: PAddr) -> (r: VAddr)
    requires
        p@ < PHYS_LIMIT,
    ensures
        r@ == p@ + PHYS_MAP,
{
    VAddr::from_u64(p.as_u64() + PHYS_MAP)
}

/// A physical frame (page), identified by its frame number.
#[derive(Clone, Copy, Debug, PartialEq, Eq, Structural, PartialOrd, Ord, Hash)]
pub struct Frame {
    num: u64,
}

impl Frame {
    /// Every frame number leaves room for its start address in 64 bits.
    #[verifier::type_invariant]
    pub open spec fn inv(self) -> bool {
        self@ < FRAME_LIMIT
    }
}

impl View for Frame {
    type V = nat;

    closed spec fn view(&self) -> nat {
        self.num as nat
    }
}

/// Frames are equal exactly when their numbers are.
pub proof fn lemma_frame_eq(a: Frame, b: Frame)
    ensures
        a == b <==> a@ == b@,
{
}

impl Frame {
    /// The starting address of the frame.
    pub fn start_address(&self) -> (r: PAddr)
        ensures
            r@ == self@ * PAGE_SIZE,
    {
        proof {
            use_type_invariant(self);
        }
        let n = self.num;
        assert(n << 12u64 == n * 4096) by (bit_vector)
            requires
                n < 0x10_0000_0000_0000u64,
        ;
        PAddr::from_u64(n << PAGE_SHIFT)
    }

    /// Round `addr` up to the closest frame boundary.
    pub fn up(addr: PAddr) -> (r: Frame)
        requires
            addr@ + PAGE_SIZE - 1 <= u64::MAX,
        ensures
            r@ == (addr@ + PAGE_SIZE - 1) / (PAGE_SIZE as int),
            addr@ <= r@ * PAGE_SIZE < addr@ + PAGE_SIZE,
    {
        let a = addr.as_u64() + (PAGE_SIZE - 1);
        assert(a >> 12u64 == a / 4096) by (bit_vector);
        let num = a >> PAGE_SHIFT;
        assert(num * 4096 <= a < num * 4096 + 4096) by (nonlinear_arith)
            requires
                num == a / 4096,
        ;
        Frame { num }
    }

    /// Round `addr` down to the closest frame boundary.
    pub fn down(addr: PAddr) -> (r: Frame)
        ensures
            r@ == addr@ / (PAGE_SIZE as nat),
            r@ * PAGE_SIZE <= addr@ < r@ * PAGE_SIZE + PAGE_SIZE,
    {
        let a = addr.as_u64();
        assert(a >> 12u64 == a / 4096) by (bit_vector);
        let num = a >> PAGE_SHIFT;
        assert(num * 4096 <= a < num * 4096 + 4096) by (nonlinear_arith)
            requires
                num == a / 4096,
        ;
        Frame { num }
    }

    /// The frame `n` frames after this one.
    pub fn add(self, n: u64) -> (r: Frame)
        requires
            self@ + n < FRAME_LIMIT,
        ensures
            r@ == self@ + n,
    {
        Frame { num: self.num + n }
    }

    /// The frame `n` frames before this one.
    pub fn sub(self, n: u64) -> (r: Frame)
        requires
            n <= self@,
        ensures
            r@ == self@ - n,
    {
        proof {
            use_type_invariant(self);
        }
        Frame { num: self.num - n }
    }
}

/// Mathematical view of a frame range: the frame numbers `lo .. hi`.
pub ghost struct FrameSpan {
    pub lo: nat,
    pub hi: nat,
}

impl FrameSpan {
    pub open spec fn len(self) -> int {
        self.hi - self.lo
    }

    pub open spec fn contains(self, f: nat) -> bool {
        self.lo <= f < self.hi
    }

    /// Neither span has a frame in the other.
    pub open spec fn disjoint(self, other: FrameSpan) -> bool {
        self.hi <= other.lo || other.hi <= self.lo
    }
}

/// A contiguous range of frames `[lower, upper)`.
#[derive(Clone, Copy, Debug, PartialEq, Eq, Structural)]
pub struct FrameRange {
    lower: Frame,
    upper: Frame,
}

impl FrameRange {
    /// A range never ends before it starts, nor past the last frame.
    #[verifier::type_invariant]
    pub open spec fn inv(self) -> bool {
        self@.lo <= self@.hi < FRAME_LIMIT
    }
}

impl View for FrameRange {
    type V = FrameSpan;

    closed spec fn view(&self) -> FrameSpan {
        FrameSpan { lo: self.lower@, hi: self.upper@ }
    }
}

/// Ranges are equal exactly when their spans are.
pub proof fn lemma_range_eq(a: FrameRange, b: FrameRange)
    ensures
        a == b <==> a@ == b@,
{
}

impl FrameRange {
    /// The range `[lower, upper)`.
    pub fn new(lower: Frame, upper: Frame) -> (r: FrameRange)
        requires
            lower@ <= upper@,
        ensures
            r@ == (FrameSpan { lo: lower@, hi: upper@ }),
    {
        proof {
            use_type_invariant(upper);
        }
        FrameRange { lower, upper }
    }

    /// The first frame of the range.
    pub fn lower(&self) -> (r: Frame)
        ensures
            r@ == self@.lo,
    {
        self.lower
    }

    /// The frame just past the range.
    pub fn upper(&self) -> (r: Frame)
        ensures
            r@ == self@.hi,
    {
        self.upper
    }

    /// Number of frames in the range.
    pub fn nframes(&self) -> (r: u64)
        ensures
            r == self@.len(),
    {
        proof {
            use_type_invariant(self);
        }
        self.upper.num - self.lower.num
    }

    /// Trim `nframes` off the front of the range.
    pub fn trim_front(&mut self, nframes: u64)
        requires
            nframes < old(self)@.len(),
        ensures
            final(self)@.lo == old(self)@.lo + nframes,
            final(self)@.hi == old(self)@.hi,
    {
        proof {
            use_type_invariant(&*self);
            use_type_invariant(self.upper);
        }
        self.lower = self.lower.add(nframes);
    }

    /// Trim `nframes` off the back of the range.
    pub fn trim_back(&mut self, nframes: u64)
        requires
            nframes < old(self)@.len(),
        ensures
            final(self)@.lo == old(self)@.lo,
            final(self)@.hi == old(self)@.hi - nframes,
    {
        proof {
            use_type_invariant(&*self);
        }
        self.upper = self.upper.sub(nframes);
    }

    /// Grow the range by `nframes` at the front.
    pub fn push_front(&mut self, nframes: u64)
        requires
            nframes <= old(self)@.lo,
        ensures
            final(self)@.lo == old(self)@.lo - nframes,
            final(self)@.hi == old(self)@.hi,
    {
        proof {
            use_type_invariant(&*self);
        }
        self.lower = self.lower.sub(nframes);
    }

    /// Grow the range by `nframes` at the back.
    pub fn push_back(&mut self, nframes: u64)
        requires
            old(self)@.hi + nframes < FRAME_LIMIT,
        ensures
            final(self)@.lo == old(self)@.lo,
            final(self)@.hi == old(self)@.hi + nframes,
    {
        proof {
            use_type_invariant(&*self);
        }
        self.upper = self.upper.add(nframes);
    }
}

/// How two ranges relate: equal, strictly left or strictly right of each
/// other, or overlapping (no order).
pub open spec fn range_order(a: FrameSpan, b: FrameSpan) -> Option<core::cmp::Ordering> {
    if a == b {
        Some(core::cmp::Ordering::Equal)
    } else if a.hi <= b.lo {
        Some(core::cmp::Ordering::Less)
    } else if a.lo >= b.hi {
        Some(core::cmp::Ordering::Greater)
    } else {
        None
    }
}

/// The order on ranges is total only where they do not overlap: equal
/// exactly when they coincide, less or greater exactly when they are
/// disjoint and different, and absent exactly when they overlap without
/// being equal.
pub proof fn lemma_range_order(a: FrameSpan, b: FrameSpan)
    requires
        a.lo <= a.hi,
        b.lo <= b.hi,
    ensures
        range_order(a, b) == Some(core::cmp::Ordering::Equal) <==> a == b,
        (range_order(a, b) == Some(core::cmp::Ordering::Less) || range_order(a, b) == Some(
            core::cmp::Ordering::Greater,
        )) <==> (a.disjoint(b) && a != b),
        range_order(a, b) is None <==> (!a.disjoint(b) && a != b),
{
}

impl PartialOrd for FrameRange {
    fn partial_cmp(&self, other: &FrameRange) -> (r: Option<core::cmp::Ordering>)
        ensures
            r == range_order(self@, other@),
    {
        if self.lower.num == other.lower.num && self.upper.num == other.upper.num {
            Some(core::cmp::Ordering::Equal)
        } else if self.upper.num <= other.lower.num {
            Some(core::cmp::Ordering::Less)
        } else if self.lower.num >= other.upper.num {
            Some(core::cmp::Ordering::Greater)
        } else {
            None
        }
    }
}

impl vstd::std_specs::cmp::PartialOrdSpecImpl for FrameRange {
    open spec fn obeys_partial_cmp_spec() -> bool {
        true
    }

    open spec fn partial_cmp_spec(&self, other: &FrameRange) -> Option<core::cmp::Ordering> {
        range_order(self@, other@)
    }
}

} // verus!
