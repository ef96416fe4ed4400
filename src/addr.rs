//! Physical and virtual addresses.
use vstd::prelude::*;

verus! {

/// A byte address on the system bus.
#[derive(Clone, Copy, Debug, Default, PartialEq, Eq, Structural, PartialOrd, Ord, Hash)]
pub struct PAddr(pub u64);

/// A byte address in the CPU's linear address space.
#[derive(Clone, Copy, Debug, Default, PartialEq, Eq, Structural, PartialOrd, Ord, Hash)]
pub struct VAddr(pub u64);

impl View for PAddr {
    type V = nat;

    open spec fn view(&self) -> nat {
        self.0 as nat
    }
}

impl View for VAddr {
    type V = nat;

    open spec fn view(&self) -> nat {
        self.0 as nat
    }
}

impl PAddr {
    pub fn as_u64(&self) -> (r: u64)
        ensures
            r == self@,
    {
        self.0
    }

    pub fn from_u64(v: u64) -> (r: PAddr)
        ensures
            r@ == v,
    {
        PAddr(v)
    }
}

impl VAddr {
    pub fn as_u64(&self) -> (r: u64)
        ensures
            r == self@,
    {
        self.0
    }

    pub fn from_u64(v: u64) -> (r: VAddr)
        ensures
            r@ == v,
    {
        VAddr(v)
    }
}

} // verus!
