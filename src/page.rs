//! Virtual pages, the virtual analogue of frames.
use vstd::prelude::*;

use crate::addr::VAddr;
use crate::frame::{FRAME_LIMIT, PAGE_SHIFT, PAGE_SIZE};

verus! {

/// A virtual page, identified by its page number.
#[derive(Clone, Copy, Debug, PartialEq, Eq, Structural, PartialOrd, Ord, Hash)]
pub struct Page {
    num: u64,
}

impl Page {
    /// Every page number leaves room for its start address in 64 bits.
    #[verifier::type_invariant]
    pub open spec fn inv(self) -> bool {
        self@ < FRAME_LIMIT
    }
}

impl View for Page {
    type V = nat;

    closed spec fn view(&self) -> nat {
        self.num as nat
    }
}

impl Page {
    /// The starting address of the page.
    pub fn start_address(&self) -> (r: VAddr)
        ensures
            r@ == self@ * PAGE_SIZE,
    {
        proof {
            use_type_invariant(self);
        }
        let n = self.num;
        assert(n << 12u64 == n * 4096) by (bit_vector)
            requires
                n < 0x10_0000_0000_0000u64,
        ;
        VAddr::from_u64(n << PAGE_SHIFT)
    }

    /// Round `addr` up to the closest page boundary.
    pub fn up(addr: VAddr) -> (r: Page)
        requires
            addr@ + PAGE_SIZE - 1 <= u64::MAX,
        ensures
            r@ == (addr@ + PAGE_SIZE - 1) / (PAGE_SIZE as int),
            addr@ <= r@ * PAGE_SIZE < addr@ + PAGE_SIZE,
    {
        let a = addr.as_u64() + (PAGE_SIZE - 1);
        assert(a >> 12u64 == a / 4096) by (bit_vector);
        let num = a >> PAGE_SHIFT;
        assert(num * 4096 <= a < num * 4096 + 4096) by (nonlinear_arith)
            requires
                num == a / 4096,
        ;
        Page { num }
    }

    /// Round `addr` down to the closest page boundary.
    pub fn down(addr: VAddr) -> (r: Page)
        ensures
            r@ == addr@ / (PAGE_SIZE as nat),
            r@ * PAGE_SIZE <= addr@ < r@ * PAGE_SIZE + PAGE_SIZE,
    {
        let a = addr.as_u64();
        assert(a >> 12u64 == a / 4096) by (bit_vector);
        let num = a >> PAGE_SHIFT;
        assert(num * 4096 <= a < num * 4096 + 4096) by (nonlinear_arith)
            requires
                num == a / 4096,
        ;
        Page { num }
    }

    /// The page `n` pages after this one.
    pub fn add(self, n: u64) -> (r: Page)
        requires
            self@ + n < FRAME_LIMIT,
        ensures
            r@ == self@ + n,
    {
        Page { num: self.num + n }
    }

    /// The page `n` pages before this one.
    pub fn sub(self, n: u64) -> (r: Page)
        requires
            n <= self@,
        ensures
            r@ == self@ - n,
    {
        proof {
            use_type_invariant(self);
        }
        Page { num: self.num - n }
    }
}

} // verus!
