//! A first-fit allocator of physical frames over a bounded, sorted,
//! coalesced free-list.
use vstd::prelude::*;

use crate::allocator::FrameAllocator;
use crate::fixed::{
    range_slots, ranges_capacity, ranges_get, ranges_insert, ranges_len, ranges_new, ranges_push, ranges_remove,
    ranges_set, stored_ranges,
};
use crate::frame::{lemma_frame_eq, Frame, FrameRange, FrameSpan, FRAME_LIMIT};
use crate::free_list::{
    allocated, apart_from_all, first_fit, free_list_wf, freed, holds_frame, joins_next,
    joins_prev, lemma_allocated, lemma_first_fit, lemma_freed, lemma_split_index, leaks,
    split_index,
};
use fixedvec::FixedVec;

verus! {

/// Frame allocator that serves the leftmost free range that is large enough.
pub struct FirstFitAllocator<'a> {
    frames: FixedVec<'a, FrameRange>,
}

impl<'a> View for FirstFitAllocator<'a> {
    type V = Seq<FrameSpan>;

    /// The free-list, in order.
    closed spec fn view(&self) -> Seq<FrameSpan> {
        stored_ranges(self.frames).map_values(|r: FrameRange| r@)
    }
}

impl<'a> FirstFitAllocator<'a> {
    /// How many entries the free-list can hold.
    pub closed spec fn slots(&self) -> nat {
        range_slots(self.frames)
    }

    /// The free-list is sorted and coalesced and fits its slots.
    pub open spec fn wf(&self) -> bool {
        free_list_wf(self@) && self@.len() <= self.slots()
    }

    /// An allocator with no free frames whose free-list lives in `memory`.
    pub fn new(memory: &'a mut [FrameRange]) -> (r: FirstFitAllocator<'a>)
        ensures
            r.wf(),
            r@ == Seq::<FrameSpan>::empty(),
            r.slots() == old(memory)@.len(),
    {
        let r = FirstFitAllocator { frames: ranges_new(memory) };
        assert(r@ =~= Seq::<FrameSpan>::empty());
        r
    }

    /// Number of entries in the free-list.
    pub fn len(&self) -> (r: usize)
        ensures
            r == self@.len(),
    {
        ranges_len(&self.frames)
    }

    /// The free-list entry at `index`.
    pub fn entry(&self, index: usize) -> (r: Option<FrameRange>)
        ensures
            index < self@.len() ==> (r matches Some(x) && x@ == self@[index as int]),
            index >= self@.len() ==> r is None,
    {
        ranges_get(&self.frames, index)
    }

    /// Takes `nframes` frames from the front of the leftmost free range that
    /// has at least that many, or returns `None` when no range has.
    pub fn allocate_range_manual(&mut self, nframes: u64) -> (r: Option<FrameRange>)
        requires
            old(self).wf(),
        ensures
            final(self).wf(),
            final(self).slots() == old(self).slots(),
            final(self)@ == allocated(old(self)@, nframes as nat),
            r is None <==> first_fit(old(self)@, nframes as nat) == old(self)@.len(),
            r matches Some(x) ==> x@ == (FrameSpan {
                lo: old(self)@[first_fit(old(self)@, nframes as nat)].lo,
                hi: old(self)@[first_fit(old(self)@, nframes as nat)].lo + nframes as nat,
            }),
    {
        proof {
            lemma_first_fit(self@, nframes as nat);
        }
        let len = ranges_len(&self.frames);
        let mut i: usize = 0;
        while i < len
            invariant
                0 <= i <= len,
                len == self@.len(),
                forall|j: int| 0 <= j < i ==> #[trigger] self@[j].len() < nframes,
            ensures
                i <= len,
                forall|j: int| 0 <= j < i ==> #[trigger] self@[j].len() < nframes,
                i < len ==> self@[i as int].len() >= nframes,
            decreases len - i,
        {
            let r = ranges_get(&self.frames, i).unwrap();
            if r.nframes() >= nframes {
                break;
            }
            i = i + 1;
        }
        if i == len {
            return None;
        }
        let r = ranges_get(&self.frames, i).unwrap();
        assert(first_fit(self@, nframes as nat) == i);
        proof {
            use_type_invariant(r);
            lemma_allocated(self@, nframes as nat);
        }
        let start = r.lower();
        let ret = FrameRange::new(start, start.add(nframes));
        let ghost s = self@;
        if r.nframes() == nframes {
            ranges_remove(&mut self.frames, i);
            assert(self@ =~= s.remove(i as int));
        } else {
            let mut rest = r;
            rest.trim_front(nframes);
            ranges_set(&mut self.frames, i, rest);
            assert(self@ =~= s.update(i as int, FrameSpan { lo: s[i as int].lo + nframes as nat, hi: s[i as int].hi }));
        }
        Some(ret)
    }

    /// Hands out the first free frame, or `None` when the free-list is empty.
    pub fn allocate_manual(&mut self) -> (r: Option<Frame>)
        requires
            old(self).wf(),
        ensures
            final(self).wf(),
            final(self).slots() == old(self).slots(),
            final(self)@ == allocated(old(self)@, 1),
            r is None <==> old(self)@.len() == 0,
            r matches Some(f) ==> f@ == old(self)@[0].lo,
    {
        proof {
            lemma_first_fit(self@, 1);
            if self@.len() > 0 {
                assert(self@[0].lo < self@[0].hi);
            }
        }
        match self.allocate_range_manual(1) {
            Some(range) => Some(range.lower()),
            None => None,
        }
    }

    /// Finds by binary search where a range starting at `range` goes: the
    /// number of entries that lie wholly before it.
    fn insertion_index(&self, range: &FrameRange) -> (k: usize)
        requires
            self.wf(),
            range@.lo < range@.hi,
            apart_from_all(self@, range@),
        ensures
            k == split_index(self@, range@.lo),
    {
        let len = ranges_len(&self.frames);
        let mut lo: usize = 0;
        let mut hi: usize = len;
        while lo < hi
            invariant
                0 <= lo <= hi <= len,
                len == self@.len(),
                self.wf(),
                range@.lo < range@.hi,
                apart_from_all(self@, range@),
                forall|j: int| 0 <= j < lo ==> #[trigger] self@[j].hi <= range@.lo,
                forall|j: int| hi <= j < len ==> #[trigger] self@[j].hi > range@.lo,
            decreases hi - lo,
        {
            let mid = lo + (hi - lo) / 2;
            let m = ranges_get(&self.frames, mid).unwrap();
            assert(self@[mid as int].disjoint(range@));
            assert(m@ == self@[mid as int]);
            let ord = m.partial_cmp(range);
            assert(ord == crate::frame::range_order(m@, range@));
            let less = match ord {
                Some(core::cmp::Ordering::Less) => true,
                _ => false,
            };
            if less {
                assert forall|j: int| 0 <= j <= mid implies #[trigger] self@[j].hi <= range@.lo by {
                    if j < mid {
                        assert(self@[j].hi < self@[mid as int].lo);
                    }
                }
                lo = mid + 1;
            } else {
                assert(self@[mid as int].hi > range@.lo);
                assert forall|j: int| mid <= j < len implies #[trigger] self@[j].hi > range@.lo by {
                    if j > mid {
                        assert(self@[mid as int].hi < self@[j].lo);
                    }
                }
                hi = mid;
            }
        }
        proof {
            lemma_split_index(self@, range@.lo);
            let k = split_index(self@, range@.lo);
            if k < lo {
                assert(self@[k].hi > range@.lo);
            }
            if k > lo {
                assert(self@[lo as int].hi <= range@.lo);
            }
        }
        lo
    }

    /// Gives `range` back. It merges with the entry before it and the entry
    /// after it where it touches them; otherwise it becomes an entry of its
    /// own, or is dropped when every slot is taken. An empty range changes
    /// nothing. Every entry must lie wholly before or after `range`: giving
    /// back a free frame, or an empty range inside a free run, is a bug.
    pub fn free_range_manual(&mut self, range: FrameRange)
        requires
            old(self).wf(),
            apart_from_all(old(self)@, range@),
        ensures
            final(self).wf(),
            final(self).slots() == old(self).slots(),
            final(self)@ == freed(old(self)@, range@, old(self).slots()),
    {
        proof {
            use_type_invariant(range);
            lemma_freed(self@, range@, self.slots());
        }
        if range.nframes() == 0 {
            return;
        }
        let ghost s = self@;
        let ghost cap = self.slots();
        let k = self.insertion_index(&range);
        let len = ranges_len(&self.frames);
        proof {
            lemma_split_index(s, range@.lo);
        }
        let prev = if k > 0 {
            let p = ranges_get(&self.frames, k - 1).unwrap();
            let pu = p.upper();
            let rl = range.lower();
            proof {
                lemma_frame_eq(pu, rl);
            }
            pu == rl
        } else {
            false
        };
        let next = if k < len {
            let n = ranges_get(&self.frames, k).unwrap();
            let ru = range.upper();
            let nl = n.lower();
            proof {
                lemma_frame_eq(ru, nl);
            }
            ru == nl
        } else {
            false
        };
        assert(prev == joins_prev(s, range@));
        assert(next == joins_next(s, range@));
        if prev && next {
            let mut p = ranges_get(&self.frames, k - 1).unwrap();
            let n = ranges_get(&self.frames, k).unwrap();
            proof {
                use_type_invariant(n);
            }
            p.push_back(n.nframes() + range.nframes());
            ranges_set(&mut self.frames, k - 1, p);
            ranges_remove(&mut self.frames, k);
            assert(self@ =~= s.update(k - 1, FrameSpan { lo: s[k - 1].lo, hi: s[k as int].hi }).remove(k as int));
        } else if prev {
            let mut p = ranges_get(&self.frames, k - 1).unwrap();
            p.push_back(range.nframes());
            ranges_set(&mut self.frames, k - 1, p);
            assert(self@ =~= s.update(k - 1, FrameSpan { lo: s[k - 1].lo, hi: range@.hi }));
        } else if next {
            let mut n = ranges_get(&self.frames, k).unwrap();
            n.push_front(range.nframes());
            ranges_set(&mut self.frames, k, n);
            assert(self@ =~= s.update(k as int, FrameSpan { lo: range@.lo, hi: s[k as int].hi }));
        } else {
            let cap_now = ranges_capacity(&self.frames);
            if k < len && cap_now - len == 1 {
                // Make room first: insertion in the middle must not take the
                // last free slot, so the tail entry steps aside and returns.
                let ghost stored = stored_ranges(self.frames);
                let last = ranges_remove(&mut self.frames, len - 1);
                let _ = ranges_insert(&mut self.frames, k, range);
                let _ = ranges_push(&mut self.frames, last);
                assert(stored_ranges(self.frames) =~= stored.insert(k as int, range));
                assert(self@ =~= s.insert(k as int, range@));
            } else {
                let res = ranges_insert(&mut self.frames, k, range);
                if res.is_ok() {
                    assert(self@ =~= s.insert(k as int, range@));
                } else {
                    assert(self@ =~= s);
                }
            }
        }
    }

    /// Whether `range` may be given back: every free-list entry lies wholly
    /// before or after it.
    pub fn is_releasable(&self, range: &FrameRange) -> (r: bool)
        requires
            self.wf(),
        ensures
            r == apart_from_all(self@, range@),
    {
        let len = ranges_len(&self.frames);
        let mut i: usize = 0;
        while i < len
            invariant
                i <= len,
                len == self@.len(),
                forall|j: int| 0 <= j < i ==> #[trigger] self@[j].disjoint(range@),
            decreases len - i,
        {
            let e = ranges_get(&self.frames, i).unwrap();
            let el = e.lower().start_address().as_u64();
            let eu = e.upper().start_address().as_u64();
            let rl = range.lower().start_address().as_u64();
            let ru = range.upper().start_address().as_u64();
            if !(eu <= rl || ru <= el) {
                assert(!self@[i as int].disjoint(range@)) by (nonlinear_arith)
                    requires
                        el == self@[i as int].lo * 4096,
                        eu == self@[i as int].hi * 4096,
                        rl == range@.lo * 4096,
                        ru == range@.hi * 4096,
                        !(eu <= rl || ru <= el),
                ;
                return false;
            }
            assert(self@[i as int].disjoint(range@)) by (nonlinear_arith)
                requires
                    el == self@[i as int].lo * 4096,
                    eu == self@[i as int].hi * 4096,
                    rl == range@.lo * 4096,
                    ru == range@.hi * 4096,
                    eu <= rl || ru <= el,
            ;
            i = i + 1;
        }
        true
    }

    /// Gives one frame back; see `free_range_manual`.
    pub fn free_manual(&mut self, frame: Frame)
        requires
            old(self).wf(),
            frame@ + 1 < FRAME_LIMIT,
            !holds_frame(old(self)@, frame@),
        ensures
            final(self).wf(),
            final(self).slots() == old(self).slots(),
            final(self)@ == freed(
                old(self)@,
                FrameSpan { lo: frame@, hi: frame@ + 1 },
                old(self).slots(),
            ),
    {
        let range = FrameRange::new(frame, frame.add(1));
        proof {
            lemma_apart_when_unheld(self@, range@);
        }
        self.free_range_manual(range);
    }
}

impl<'a> FrameAllocator for FirstFitAllocator<'a> {
    open spec fn ready(&self) -> bool {
        self.wf()
    }

    open spec fn is_free(&self, f: nat) -> bool {
        holds_frame(self@, f)
    }

    open spec fn room(&self) -> nat {
        (self.slots() - self@.len()) as nat
    }

    fn has_free(&self) -> (r: bool) {
        proof {
            if self@.len() > 0 {
                assert(self@[0].contains(self@[0].lo));
                assert(holds_frame(self@, self@[0].lo));
                assert(self.is_free(self@[0].lo));
            } else {
                assert forall|g: nat| !self.is_free(g) by {}
            }
        }
        self.len() > 0
    }

    fn allocate_manual(&mut self) -> (r: Option<Frame>) {
        proof {
            lemma_first_fit(self@, 1);
            if self@.len() > 0 {
                assert(self@[0].lo < self@[0].hi);
                lemma_allocated(self@, 1);
                assert(self@[0].contains(self@[0].lo));
            }
        }
        FirstFitAllocator::allocate_manual(self)
    }

    fn free_manual(&mut self, frame: Frame) {
        proof {
            lemma_apart_when_unheld(self@, FrameSpan { lo: frame@, hi: frame@ + 1 });
            lemma_freed(self@, FrameSpan { lo: frame@, hi: frame@ + 1 }, self.slots());
        }
        FirstFitAllocator::free_manual(self, frame)
    }

    fn allocate_range_manual(&mut self, nframes: u64) -> (r: Option<FrameRange>) {
        proof {
            lemma_first_fit(self@, nframes as nat);
            if first_fit(self@, nframes as nat) < self@.len() {
                lemma_allocated(self@, nframes as nat);
                let k = first_fit(self@, nframes as nat);
                assert forall|g: nat|
                    self@[k].lo <= g < self@[k].lo + nframes implies holds_frame(self@, g) by {
                    assert(self@[k].contains(g));
                }
            }
        }
        FirstFitAllocator::allocate_range_manual(self, nframes)
    }

    fn free_range_manual(&mut self, range: FrameRange) {
        proof {
            use_type_invariant(range);
            lemma_apart_when_unheld(self@, range@);
            lemma_freed(self@, range@, self.slots());
        }
        if range.nframes() == 0 {
            return;
        }
        FirstFitAllocator::free_range_manual(self, range)
    }
}

/// A non-empty span none of whose frames is held shares nothing with any
/// entry.
pub proof fn lemma_apart_when_unheld(s: Seq<FrameSpan>, r: FrameSpan)
    requires
        free_list_wf(s),
        forall|g: nat| r.contains(g) ==> !holds_frame(s, g),
    ensures
        r.lo < r.hi ==> apart_from_all(s, r),
{
    if r.lo < r.hi {
        assert forall|i: int| 0 <= i < s.len() implies #[trigger] s[i].disjoint(r) by {
            if !s[i].disjoint(r) {
                let g = if s[i].lo >= r.lo { s[i].lo } else { r.lo };
                assert(s[i].contains(g));
                assert(!holds_frame(s, g));
            }
        }
    }
}

} // verus!
