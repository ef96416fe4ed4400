//! The interface through which the page-table engine and the bring-up
//! sequence obtain and return physical frames.
use vstd::prelude::*;

use crate::frame::{Frame, FrameRange, FRAME_LIMIT};

verus! {

/// A source of physical frames.
pub trait FrameAllocator: Sized {
    /// The allocator's internal invariant holds.
    spec fn ready(&self) -> bool;

    /// Frame number `f` may be handed out.
    spec fn is_free(&self, f: nat) -> bool;

    /// How many more ranges can be released before one may be dropped.
    spec fn room(&self) -> nat;

    /// Whether some frame is free.
    fn has_free(&self) -> (r: bool)
        requires
            self.ready(),
        ensures
            r == exists|g: nat| self.is_free(g),
    ;

    /// Hands out one free frame, or `None` when no frame is free.
    fn allocate_manual(&mut self) -> (r: Option<Frame>)
        requires
            old(self).ready(),
        ensures
            final(self).ready(),
            final(self).room() >= old(self).room(),
            r is None ==> forall|g: nat| !old(self).is_free(g),
            r is None ==> forall|g: nat| final(self).is_free(g) == old(self).is_free(g),
            r matches Some(f) ==> old(self).is_free(f@) && !final(self).is_free(f@),
            r matches Some(f) ==> forall|g: nat|
                g != f@ ==> #[trigger] final(self).is_free(g) == old(self).is_free(g),
    ;

    /// Takes back a frame that is not free. The frame may be dropped when
    /// the allocator has no room to record it.
    fn free_manual(&mut self, frame: Frame)
        requires
            old(self).ready(),
            !old(self).is_free(frame@),
            frame@ + 1 < FRAME_LIMIT,
        ensures
            final(self).ready(),
            final(self).room() + 1 >= old(self).room(),
            old(self).room() > 0 ==> final(self).is_free(frame@),
            forall|g: nat| g != frame@ ==> #[trigger] final(self).is_free(g) == old(self).is_free(g),
    ;

    /// Hands out `nframes` contiguous free frames, or `None`.
    fn allocate_range_manual(&mut self, nframes: u64) -> (r: Option<FrameRange>)
        requires
            old(self).ready(),
        ensures
            final(self).ready(),
            final(self).room() >= old(self).room(),
            r is None ==> forall|g: nat| final(self).is_free(g) == old(self).is_free(g),
            r matches Some(x) ==> x@.len() == nframes,
            r matches Some(x) ==> forall|g: nat|
                #[trigger] final(self).is_free(g) == (old(self).is_free(g) && !x@.contains(g)),
            r matches Some(x) ==> forall|g: nat| x@.contains(g) ==> old(self).is_free(g),
    ;

    /// Takes back a range none of whose frames is free. The range may be
    /// dropped when the allocator has no room to record it.
    fn free_range_manual(&mut self, range: FrameRange)
        requires
            old(self).ready(),
            forall|g: nat| range@.contains(g) ==> !old(self).is_free(g),
        ensures
            final(self).ready(),
            final(self).room() + 1 >= old(self).room(),
            old(self).room() > 0 ==> forall|g: nat| range@.contains(g) ==> #[trigger] final(self).is_free(g),
            forall|g: nat|
                !range@.contains(g) ==> #[trigger] final(self).is_free(g) == old(self).is_free(g),
    ;
}

} // verus!
