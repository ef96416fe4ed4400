//! The order of the bring-up stages.
use vstd::prelude::*;

verus! {

/// How far bring-up has come.
#[derive(Clone, Copy, Debug, PartialEq, Eq, Structural)]
pub enum BootState {
    Cold,
    ConsoleUp,
    RegionsDiscovered,
    AllocatorSeeded,
    RuntimeMapped,
    Pivoted,
    CpuInstalled,
}

/// Position of a state in the bring-up order.
pub open spec fn stage_number(s: BootState) -> nat {
    match s {
        BootState::Cold => 0,
        BootState::ConsoleUp => 1,
        BootState::RegionsDiscovered => 2,
        BootState::AllocatorSeeded => 3,
        BootState::RuntimeMapped => 4,
        BootState::Pivoted => 5,
        BootState::CpuInstalled => 6,
    }
}

impl BootState {
    /// The state the next stage leads to; none after the last.
    pub fn advance(self) -> (r: Option<BootState>)
        ensures
            r is None <==> self == BootState::CpuInstalled,
            r matches Some(n) ==> stage_number(n) == stage_number(self) + 1,
    {
        match self {
            BootState::Cold => Some(BootState::ConsoleUp),
            BootState::ConsoleUp => Some(BootState::RegionsDiscovered),
            BootState::RegionsDiscovered => Some(BootState::AllocatorSeeded),
            BootState::AllocatorSeeded => Some(BootState::RuntimeMapped),
            BootState::RuntimeMapped => Some(BootState::Pivoted),
            BootState::Pivoted => Some(BootState::CpuInstalled),
            BootState::CpuInstalled => None,
        }
    }

    /// Whether stage `next` may run now: only the one right after this
    /// state, so that no stage runs twice or out of order.
    pub fn may_enter(self, next: BootState) -> (r: bool)
        ensures
            r == (stage_number(next) == stage_number(self) + 1),
    {
        match self.advance() {
            Some(n) => n == next,
            None => false,
        }
    }
}

} // verus!
