//! A block of physical memory held as ordinary words, through which the
//! page-table engine can build tables wherever a window onto real memory is
//! not at hand.
use vstd::prelude::*;

use crate::frame::Frame;
use crate::page_table::{ent, reach, TableMemory, ENTRIES};

verus! {

/// Frames `first .. first + count`, 512 entries each, all reachable.
pub struct FrameArena {
    first: u64,
    count: u64,
    words: Vec<u64>,
}

/// Most frames one arena holds.
pub const ARENA_MAX_FRAMES: u64 = 0x10_0000;

impl FrameArena {
    /// Internal consistency: one word per entry of every frame.
    pub closed spec fn wf(&self) -> bool {
        &&& self.count <= ARENA_MAX_FRAMES
        &&& self.words@.len() == self.count * 512
        &&& self.first + self.count <= u64::MAX
    }

    /// First frame the arena holds.
    pub closed spec fn first_frame(&self) -> nat {
        self.first as nat
    }

    /// Number of frames the arena holds.
    pub closed spec fn frame_count(&self) -> nat {
        self.count as nat
    }

    /// `count` zeroed frames starting at `first`.
    pub fn new(first: Frame, count: u64) -> (r: FrameArena)
        requires
            count <= ARENA_MAX_FRAMES,
        ensures
            r.first_frame() == first@,
            r.frame_count() == count,
            forall|t: nat| #[trigger] reach(r, t) <==> first@ <= t < first@ + count,
            forall|t: nat, i: nat| #[trigger] ent(r, t, i) == 0,
    {
        let base = first.start_address().as_u64() / 4096;
        let total: usize = (count * 512) as usize;
        let mut words: Vec<u64> = Vec::new();
        while words.len() < total
            invariant
                total == count * 512,
                words@.len() <= total,
                forall|k: int| 0 <= k < words@.len() ==> #[trigger] words@[k] == 0,
            decreases total - words@.len(),
        {
            words.push(0);
        }
        let r = FrameArena { first: base, count, words };
        assert forall|t: u64, i: u64| #[trigger] r.entry(t, i) == 0 by {
            if r.reaches(t) && i < 512 {
                assert(0 <= (t - base) * 512 + i < count * 512) by (nonlinear_arith)
                    requires
                        base <= t < base + count,
                        i < 512,
                ;
            }
        }
        r
    }

    fn slot(&self, table: Frame, index: usize) -> (k: usize)
        requires
            self.reaches(table@ as u64),
            index < ENTRIES,
        ensures
            k == (table@ - self.first) * 512 + index,
            k < self.words@.len(),
    {
        let t = table.start_address().as_u64() / 4096;
        let off = t - self.first;
        assert(off * 512 + index < self.count * 512) by (nonlinear_arith)
            requires
                off < self.count,
                index < 512,
        ;
        (off * 512 + index as u64) as usize
    }
}

/// Two different frames own disjoint runs of 512 words.
proof fn lemma_slots_apart(a: int, b: int, i: int, j: int)
    requires
        0 <= a,
        0 <= b,
        a != b,
        0 <= i < 512,
        0 <= j < 512,
    ensures
        a * 512 + i != b * 512 + j,
{
    if a < b {
        assert(a * 512 + i < b * 512 + j) by (nonlinear_arith)
            requires
                a < b,
                i < 512,
                0 <= j,
        ;
    } else {
        assert(b * 512 + j < a * 512 + i) by (nonlinear_arith)
            requires
                b < a,
                j < 512,
                0 <= i,
        ;
    }
}

impl TableMemory for FrameArena {
    open spec fn reaches(&self, table: u64) -> bool {
        self.wf() && self.first_frame() <= table < self.first_frame() + self.frame_count()
    }

    closed spec fn entry(&self, table: u64, index: u64) -> u64 {
        if self.reaches(table) && index < 512 {
            self.words@[(table - self.first) * 512 + index]
        } else {
            0
        }
    }

    fn read(&self, table: Frame, index: usize) -> (r: u64) {
        let k = self.slot(table, index);
        self.words[k]
    }

    fn write(&mut self, table: Frame, index: usize, value: u64) {
        let k = self.slot(table, index);
        let ghost before = *self;
        self.words[k] = value;
        assert forall|t: u64, i: u64|
            #[trigger] self.entry(t, i) == if t == table@ && i == index {
                value
            } else {
                before.entry(t, i)
            } by {
            if self.reaches(t) && i < 512 && !(t == table@ && i == index) {
                if t != table@ {
                    lemma_slots_apart(t - self.first, table@ - self.first, i as int, index as int);
                }
            }
        }
    }

    fn zero(&mut self, table: Frame) {
        let base = self.slot(table, 0);
        let ghost before = *self;
        let mut j: usize = 0;
        while j < ENTRIES
            invariant
                self.wf(),
                self.first == before.first,
                self.count == before.count,
                base + 512 <= self.words@.len(),
                base == (table@ - self.first) * 512,
                self.words@.len() == before.words@.len(),
                j <= ENTRIES,
                forall|k: int| base <= k < base + j ==> #[trigger] self.words@[k] == 0,
                forall|k: int|
                    0 <= k < self.words@.len() && !(base <= k < base + j)
                        ==> #[trigger] self.words@[k] == before.words@[k],
            decreases ENTRIES - j,
        {
            self.words[base + j] = 0;
            j = j + 1;
        }
        assert forall|t: u64, i: u64|
            #[trigger] self.entry(t, i) == if t == table@ {
                0
            } else {
                before.entry(t, i)
            } by {
            if self.reaches(t) && i < 512 {
                if t != table@ {
                    lemma_slots_apart(t - self.first, table@ - self.first, i as int, 0);
                    lemma_slots_apart(t - self.first, table@ - self.first, i as int, 511);
                    let k = (t - self.first) * 512 + i;
                    if base <= k < base + 512 {
                        lemma_slots_apart(t - self.first, table@ - self.first, i as int, k - base);
                    }
                }
            }
        }
    }
}

} // verus!
