//! Soundness of a whole page table across many mappings: the tables of each
//! level are reachable, in use, and never shared between levels, so that
//! mapping one page leaves every other mapping as it was.
use vstd::prelude::*;

use crate::allocator::FrameAllocator;
use crate::page_table::{
    entry_frame, fresh_table_entry, leaf_entry, on_walk, pd_index, pd_of, pdpt_index, pdpt_of,
    is_mapped, pml4_index, pt_index, pt_of, same_entry, upper_levels_present, walk_in_use, TableMemory, ent, reach,
    PHYS_FRAME_LIMIT,
};

verus! {

/// `l3`, `l2` and `l1` hold the PDPTs, PDs and PTs reachable from `root`:
/// each present entry of a table points into the next level's set, the
/// levels share no frame, and every table is reachable and not free.
#[verifier::opaque]
pub open spec fn levels_sound<M: TableMemory, A: FrameAllocator>(
    m: M,
    a: A,
    root: nat,
    l3: Set<nat>,
    l2: Set<nat>,
    l1: Set<nat>,
) -> bool {
    &&& reach(m, root) && !a.is_free(root)
    &&& !l3.contains(root) && !l2.contains(root) && !l1.contains(root)
    &&& l3.disjoint(l2) && l3.disjoint(l1) && l2.disjoint(l1)
    &&& forall|t: nat| #[trigger] l3.contains(t) ==> reach(m, t) && !a.is_free(t)
    &&& forall|t: nat| #[trigger] l2.contains(t) ==> reach(m, t) && !a.is_free(t)
    &&& forall|t: nat| #[trigger] l1.contains(t) ==> reach(m, t) && !a.is_free(t)
    &&& forall|i: nat|
        i < 512 && #[trigger] ent(m, root, i) != 0 ==> l3.contains(entry_frame(ent(m, root, i)))
    &&& forall|t: nat, i: nat|
        l3.contains(t) && i < 512 && #[trigger] ent(m, t, i) != 0 ==> l2.contains(
            entry_frame(ent(m, t, i)),
        )
    &&& forall|t: nat, i: nat|
        l2.contains(t) && i < 512 && #[trigger] ent(m, t, i) != 0 ==> l1.contains(
            entry_frame(ent(m, t, i)),
        )
    &&& one_parent(m, set![root])
    &&& one_parent(m, l3)
    &&& one_parent(m, l2)
}

/// No frame is pointed at from two present entries of the tables in
/// `above`: below them the tables form a tree.
pub open spec fn one_parent<M: TableMemory>(m: M, above: Set<nat>) -> bool {
    forall|s: nat, t: nat, i: nat, j: nat|
        above.contains(s) && above.contains(t) && i < 512 && j < 512 && #[trigger] ent(m, s, i) != 0
            && #[trigger] ent(m, t, j) != 0 && entry_frame(ent(m, s, i)) == entry_frame(ent(m, t, j))
            ==> s == t && i == j
}

/// The page table rooted at `root` is sound in `m` with respect to `a`.
pub open spec fn tables_sound<M: TableMemory, A: FrameAllocator>(m: M, a: A, root: nat) -> bool {
    exists|l3: Set<nat>, l2: Set<nat>, l1: Set<nat>| levels_sound(m, a, root, l3, l2, l1)
}

/// Every free frame can hold a table: it is reachable and its address fits
/// an entry.
pub open spec fn frames_usable<M: TableMemory, A: FrameAllocator>(m: M, a: A) -> bool {
    forall|g: nat| #[trigger] a.is_free(g) ==> g < PHYS_FRAME_LIMIT && reach(m, g)
}

/// Page `va` is mapped by leaf entry `e`.
pub open spec fn mapped_to<M: TableMemory>(m: M, root: nat, va: nat, e: u64) -> bool {
    upper_levels_present(m, root, va) && leaf_entry(m, root, va) == e
}

/// A freshly cleared root makes a sound, empty page table.
pub proof fn lemma_empty_root_sound<M: TableMemory, A: FrameAllocator>(m: M, a: A, root: nat)
    requires
        reach(m, root),
        !a.is_free(root),
        forall|i: nat| #[trigger] ent(m, root, i) == 0,
    ensures
        tables_sound(m, a, root),
{
    reveal(levels_sound);
    assert(levels_sound(m, a, root, Set::empty(), Set::empty(), Set::empty()));
}

/// In a sound table every walk passes only through tables in use.
pub proof fn lemma_sound_walk<M: TableMemory, A: FrameAllocator>(
    m: M,
    a: A,
    root: nat,
    l3: Set<nat>,
    l2: Set<nat>,
    l1: Set<nat>,
    va: nat,
)
    requires
        levels_sound(m, a, root, l3, l2, l1),
    ensures
        walk_in_use(m, a, root, va),
        ent(m, root, pml4_index(va)) != 0 ==> l3.contains(pdpt_of(m, root, va)),
        ent(m, root, pml4_index(va)) != 0 && ent(m, pdpt_of(m, root, va), pdpt_index(va)) != 0
            ==> l2.contains(pd_of(m, root, va)),
        upper_levels_present(m, root, va) ==> l1.contains(pt_of(m, root, va)),
{
    reveal(levels_sound);
    if ent(m, root, pml4_index(va)) != 0 {
        assert(l3.contains(pdpt_of(m, root, va)));
        if ent(m, pdpt_of(m, root, va), pdpt_index(va)) != 0 {
            assert(l2.contains(pd_of(m, root, va)));
            if ent(m, pd_of(m, root, va), pd_index(va)) != 0 {
                assert(l1.contains(pt_of(m, root, va)));
            }
        }
    }
}

/// What a successful mapping of `va` keeps: no live entry outside the free
/// frames changes, the free frames only shrink, and a mapping that was in
/// place stays in place.
pub proof fn lemma_mapping_kept<M: TableMemory, A: FrameAllocator>(
    m0: M,
    a0: A,
    m1: M,
    a1: A,
    root: nat,
    l3: Set<nat>,
    l2: Set<nat>,
    l1: Set<nat>,
    q: nat,
    e: u64,
)
    requires
        levels_sound(m0, a0, root, l3, l2, l1),
        forall|t: nat, i: nat|
            !a0.is_free(t) && ent(m0, t, i) != 0 ==> #[trigger] ent(m1, t, i) == ent(m0, t, i),
        mapped_to(m0, root, q, e),
        e != 0,
    ensures
        mapped_to(m1, root, q, e),
{
    reveal(levels_sound);
    lemma_sound_walk(m0, a0, root, l3, l2, l1, q);
    assert(ent(m1, root, pml4_index(q)) == ent(m0, root, pml4_index(q)));
    assert(pdpt_of(m1, root, q) == pdpt_of(m0, root, q));
    assert(ent(m1, pdpt_of(m0, root, q), pdpt_index(q)) == ent(m0, pdpt_of(m0, root, q), pdpt_index(q)));
    assert(pd_of(m1, root, q) == pd_of(m0, root, q));
    assert(ent(m1, pd_of(m0, root, q), pd_index(q)) == ent(m0, pd_of(m0, root, q), pd_index(q)));
    assert(pt_of(m1, root, q) == pt_of(m0, root, q));
    assert(ent(m1, pt_of(m0, root, q), pt_index(q)) == ent(m0, pt_of(m0, root, q), pt_index(q)));
}

/// A successful mapping of `va` keeps the table sound: the walk's tables
/// join their levels.
pub proof fn lemma_map_keeps_sound<M: TableMemory, A: FrameAllocator>(
    m0: M,
    a0: A,
    m1: M,
    a1: A,
    root: nat,
    l3: Set<nat>,
    l2: Set<nat>,
    l1: Set<nat>,
    va: nat,
)
    requires
        levels_sound(m0, a0, root, l3, l2, l1),
        forall|t: nat| #[trigger] reach(m1, t) == reach(m0, t),
        forall|g: nat| #[trigger] a1.is_free(g) ==> a0.is_free(g),
        forall|t: nat, i: nat|
            !a0.is_free(t) && ent(m0, t, i) != 0 ==> #[trigger] ent(m1, t, i) == ent(m0, t, i),
        forall|t: nat, i: nat|
            #[trigger] ent(m1, t, i) != ent(m0, t, i) ==> a0.is_free(t) || on_walk(m1, root, va, t, i),
        forall|t: nat, i: nat|
            a0.is_free(t) && !a1.is_free(t) ==> #[trigger] ent(m1, t, i) == 0 || on_walk(
                m1,
                root,
                va,
                t,
                i,
            ),
        upper_levels_present(m1, root, va),
        walk_in_use(m1, a1, root, va),
        same_entry(m0, m1, root, pml4_index(va)) || fresh_table_entry(a0, ent(m1, root, pml4_index(va))),
        (!a0.is_free(pdpt_of(m1, root, va)) && same_entry(m0, m1, pdpt_of(m1, root, va), pdpt_index(va)))
            || fresh_table_entry(a0, ent(m1, pdpt_of(m1, root, va), pdpt_index(va))),
        (!a0.is_free(pd_of(m1, root, va)) && same_entry(m0, m1, pd_of(m1, root, va), pd_index(va)))
            || fresh_table_entry(a0, ent(m1, pd_of(m1, root, va), pd_index(va))),
        a0.is_free(pdpt_of(m1, root, va)) && a0.is_free(pd_of(m1, root, va)) ==> pdpt_of(m1, root, va) != pd_of(m1, root, va),
        a0.is_free(pdpt_of(m1, root, va)) && a0.is_free(pt_of(m1, root, va)) ==> pdpt_of(m1, root, va) != pt_of(m1, root, va),
        a0.is_free(pd_of(m1, root, va)) && a0.is_free(pt_of(m1, root, va)) ==> pd_of(m1, root, va) != pt_of(m1, root, va),
    ensures
        levels_sound(
            m1,
            a1,
            root,
            l3.insert(pdpt_of(m1, root, va)),
            l2.insert(pd_of(m1, root, va)),
            l1.insert(pt_of(m1, root, va)),
        ),
{
    reveal(levels_sound);
    let p3 = pdpt_of(m1, root, va);
    let p2 = pd_of(m1, root, va);
    let p1 = pt_of(m1, root, va);
    let i4 = pml4_index(va);
    let i3 = pdpt_index(va);
    let i2 = pd_index(va);
    let i1 = pt_index(va);
    // each table of the walk was either already in its level or is fresh
    assert(l3.contains(p3) || a0.is_free(p3)) by {
        if same_entry(m0, m1, root, i4) {
            assert(ent(m0, root, i4) != 0);
        }
    }
    assert(l2.contains(p2) || a0.is_free(p2)) by {
        if !a0.is_free(p3) && same_entry(m0, m1, p3, i3) {
            if l3.contains(p3) {
                assert(ent(m0, p3, i3) != 0);
            }
        }
    }
    assert(l1.contains(p1) || a0.is_free(p1)) by {
        if !a0.is_free(p2) && same_entry(m0, m1, p2, i2) {
            if l2.contains(p2) {
                assert(ent(m0, p2, i2) != 0);
            }
        }
    }

    let n3 = l3.insert(p3);
    let n2 = l2.insert(p2);
    let n1 = l1.insert(p1);
    assert(!a0.is_free(root));
    assert(p3 != root && p2 != root && p1 != root);
    assert(p3 != p2 && p3 != p1 && p2 != p1);
    assert(!l2.contains(p3) && !l1.contains(p3));
    assert(!l3.contains(p2) && !l1.contains(p2));
    assert(!l3.contains(p1) && !l2.contains(p1));
    assert(n3.disjoint(n2));
    assert(n3.disjoint(n1));
    assert(n2.disjoint(n1));
    assert(ent(m1, root, i4) != 0);
    assert(ent(m1, p3, i3) != 0);
    assert(ent(m1, p2, i2) != 0);
    assert forall|t: nat| #[trigger] n3.contains(t) implies reach(m1, t) && !a1.is_free(t) by {
        if t != p3 {
            assert(l3.contains(t));
        }
    }
    assert forall|t: nat| #[trigger] n2.contains(t) implies reach(m1, t) && !a1.is_free(t) by {
        if t != p2 {
            assert(l2.contains(t));
        }
    }
    assert forall|t: nat| #[trigger] n1.contains(t) implies reach(m1, t) && !a1.is_free(t) by {
        if t != p1 {
            assert(l1.contains(t));
        }
    }
    assert forall|i: nat|
        i < 512 && #[trigger] ent(m1, root, i) != 0 implies n3.contains(
        entry_frame(ent(m1, root, i)),
    ) by {
        if ent(m1, root, i) == ent(m0, root, i) {
            assert(l3.contains(entry_frame(ent(m0, root, i))));
        } else {
            assert(on_walk(m1, root, va, root, i));
        }
    }
    assert forall|t: nat, i: nat|
        n3.contains(t) && i < 512 && #[trigger] ent(m1, t, i) != 0 implies n2.contains(
        entry_frame(ent(m1, t, i)),
    ) by {
        if l3.contains(t) {
            if ent(m1, t, i) == ent(m0, t, i) {
                assert(l2.contains(entry_frame(ent(m0, t, i))));
            } else {
                assert(on_walk(m1, root, va, t, i));
            }
        } else {
            assert(t == p3);
            assert(a0.is_free(p3) && !a1.is_free(p3));
            assert(on_walk(m1, root, va, t, i));
        }
    }
    assert forall|t: nat, i: nat|
        n2.contains(t) && i < 512 && #[trigger] ent(m1, t, i) != 0 implies n1.contains(
        entry_frame(ent(m1, t, i)),
    ) by {
        if l2.contains(t) {
            if ent(m1, t, i) == ent(m0, t, i) {
                assert(l1.contains(entry_frame(ent(m0, t, i))));
            } else {
                assert(on_walk(m1, root, va, t, i));
            }
        } else {
            assert(t == p2);
            assert(a0.is_free(p2) && !a1.is_free(p2));
            assert(on_walk(m1, root, va, t, i));
        }
    }
}

/// Pages `a` and `b` use the same entry at every level of the walk.
pub open spec fn same_slot(a: nat, b: nat) -> bool {
    &&& pml4_index(a) == pml4_index(b)
    &&& pdpt_index(a) == pdpt_index(b)
    &&& pd_index(a) == pd_index(b)
    &&& pt_index(a) == pt_index(b)
}

/// A successful mapping of `va` leaves unmapped every page that was
/// unmapped and does not share `va`'s entries.
pub proof fn lemma_unmapped_kept<M: TableMemory, A: FrameAllocator>(
    m0: M,
    a0: A,
    m1: M,
    a1: A,
    root: nat,
    l3: Set<nat>,
    l2: Set<nat>,
    l1: Set<nat>,
    va: nat,
    q: nat,
)
    requires
        levels_sound(m0, a0, root, l3, l2, l1),
        forall|t: nat| #[trigger] reach(m1, t) == reach(m0, t),
        forall|g: nat| #[trigger] a1.is_free(g) ==> a0.is_free(g),
        forall|t: nat, i: nat|
            !a0.is_free(t) && ent(m0, t, i) != 0 ==> #[trigger] ent(m1, t, i) == ent(m0, t, i),
        forall|t: nat, i: nat|
            #[trigger] ent(m1, t, i) != ent(m0, t, i) ==> a0.is_free(t) || on_walk(m1, root, va, t, i),
        forall|t: nat, i: nat|
            a0.is_free(t) && !a1.is_free(t) ==> #[trigger] ent(m1, t, i) == 0 || on_walk(
                m1,
                root,
                va,
                t,
                i,
            ),
        upper_levels_present(m1, root, va),
        walk_in_use(m1, a1, root, va),
        same_entry(m0, m1, root, pml4_index(va)) || fresh_table_entry(a0, ent(m1, root, pml4_index(va))),
        (!a0.is_free(pdpt_of(m1, root, va)) && same_entry(m0, m1, pdpt_of(m1, root, va), pdpt_index(va)))
            || fresh_table_entry(a0, ent(m1, pdpt_of(m1, root, va), pdpt_index(va))),
        (!a0.is_free(pd_of(m1, root, va)) && same_entry(m0, m1, pd_of(m1, root, va), pd_index(va)))
            || fresh_table_entry(a0, ent(m1, pd_of(m1, root, va), pd_index(va))),
        a0.is_free(pdpt_of(m1, root, va)) && a0.is_free(pd_of(m1, root, va)) ==> pdpt_of(m1, root, va) != pd_of(m1, root, va),
        a0.is_free(pdpt_of(m1, root, va)) && a0.is_free(pt_of(m1, root, va)) ==> pdpt_of(m1, root, va) != pt_of(m1, root, va),
        a0.is_free(pd_of(m1, root, va)) && a0.is_free(pt_of(m1, root, va)) ==> pd_of(m1, root, va) != pt_of(m1, root, va),
        !is_mapped(m0, root, q),
        !same_slot(q, va),
    ensures
        !is_mapped(m1, root, q),
{
    reveal(levels_sound);
    lemma_map_keeps_sound(m0, a0, m1, a1, root, l3, l2, l1, va);
    let p3 = pdpt_of(m1, root, va);
    let p2 = pd_of(m1, root, va);
    let p1 = pt_of(m1, root, va);
    let n3 = l3.insert(p3);
    let n2 = l2.insert(p2);
    let n1 = l1.insert(p1);
    lemma_sound_walk(m1, a1, root, n3, n2, n1, q);
    lemma_sound_walk(m1, a1, root, n3, n2, n1, va);
    lemma_sound_walk(m0, a0, root, l3, l2, l1, q);
    if is_mapped(m1, root, q) {
        let q3 = pdpt_of(m1, root, q);
        let q2 = pd_of(m1, root, q);
        let q1 = pt_of(m1, root, q);
        let (i4, i3, i2, i1) = (pml4_index(q), pdpt_index(q), pd_index(q), pt_index(q));
        assert(n3.contains(q3) && n2.contains(q2) && n1.contains(q1));
        if q1 == p1 && i1 == pt_index(va) {
            assert(ent(m1, q2, i2) != 0 && ent(m1, p2, pd_index(va)) != 0);
            assert(q2 == p2 && i2 == pd_index(va));
            assert(ent(m1, q3, i3) != 0 && ent(m1, p3, pdpt_index(va)) != 0);
            assert(q3 == p3 && i3 == pdpt_index(va));
            assert(set![root].contains(root));
            assert(ent(m1, root, i4) != 0 && ent(m1, root, pml4_index(va)) != 0);
            assert(i4 == pml4_index(va));
            assert(false);
        } else {
            // the leaf entry was there before
            if ent(m1, q1, i1) != ent(m0, q1, i1) {
                assert(on_walk(m1, root, va, q1, i1) || a0.is_free(q1));
                if a0.is_free(q1) {
                    assert(!a1.is_free(q1));
                    assert(on_walk(m1, root, va, q1, i1));
                }
                assert(false);
            }
            // a fresh PT on the walk only holds the walk's own leaf
            assert(a0.is_free(p1) ==> !(q1 == p1)) by {
                if a0.is_free(p1) && q1 == p1 {
                    assert(!a1.is_free(p1));
                    assert(on_walk(m1, root, va, p1, i1));
                }
            }
            // a fresh PD on the walk leads only to the walk's PT
            assert(a0.is_free(p2) ==> !(q2 == p2)) by {
                if a0.is_free(p2) && q2 == p2 {
                    assert(!a1.is_free(p2));
                    assert(on_walk(m1, root, va, p2, i2));
                    assert(i2 == pd_index(va));
                    assert(q1 == p1);
                    assert(a0.is_free(p1));
                }
            }
            assert(a0.is_free(p3) ==> !(q3 == p3)) by {
                if a0.is_free(p3) && q3 == p3 {
                    assert(!a1.is_free(p3));
                    assert(on_walk(m1, root, va, p3, i3));
                    assert(i3 == pdpt_index(va));
                    assert(q2 == p2);
                    assert(a0.is_free(p2));
                }
            }
            if ent(m1, root, i4) != ent(m0, root, i4) {
                assert(on_walk(m1, root, va, root, i4));
                assert(i4 == pml4_index(va));
                assert(a0.is_free(p3));
                assert(false);
            }
            assert(l3.contains(q3));
            if ent(m1, q3, i3) != ent(m0, q3, i3) {
                assert(on_walk(m1, root, va, q3, i3));
                assert(q3 == p3 && i3 == pdpt_index(va));
                assert(a0.is_free(p2));
                assert(false);
            }
            assert(l2.contains(q2));
            if ent(m1, q2, i2) != ent(m0, q2, i2) {
                assert(on_walk(m1, root, va, q2, i2));
                assert(q2 == p2 && i2 == pd_index(va));
                assert(a0.is_free(p1));
                assert(false);
            }
            assert(is_mapped(m0, root, q));
        }
    }
}

/// Two page addresses less than 2^48 bytes apart use different entries
/// somewhere on the walk.
pub proof fn lemma_slots_differ(va: nat, vb: nat)
    requires
        va < vb <= u64::MAX,
        (vb - va) % 4096 == 0,
        vb - va < 0x1_0000_0000_0000,
    ensures
        !same_slot(va, vb),
{
    let a = va as u64;
    let b = vb as u64;
    let d = ((vb - va) / 4096) as u64;
    assert(b == a + d * 4096);
    assert(0 < d < 0x10_0000_0000);
    assert(d << 12u64 == d * 4096) by (bit_vector)
        requires
            d < 0x10_0000_0000u64,
    ;
    assert((a >> 39u64) & 0x1FF == (a / 0x80_0000_0000) % 512) by (bit_vector);
    assert((a >> 30u64) & 0x1FF == (a / 0x4000_0000) % 512) by (bit_vector);
    assert((a >> 21u64) & 0x1FF == (a / 0x20_0000) % 512) by (bit_vector);
    assert((a >> 12u64) & 0x1FF == (a / 0x1000) % 512) by (bit_vector);
    assert((b >> 39u64) & 0x1FF == (b / 0x80_0000_0000) % 512) by (bit_vector);
    assert((b >> 30u64) & 0x1FF == (b / 0x4000_0000) % 512) by (bit_vector);
    assert((b >> 21u64) & 0x1FF == (b / 0x20_0000) % 512) by (bit_vector);
    assert((b >> 12u64) & 0x1FF == (b / 0x1000) % 512) by (bit_vector);
    assert(!((a >> 39u64) & 0x1FF == (b >> 39u64) & 0x1FF && (a >> 30u64) & 0x1FF == (b >> 30u64)
        & 0x1FF && (a >> 21u64) & 0x1FF == (b >> 21u64) & 0x1FF && (a >> 12u64) & 0x1FF == (b
        >> 12u64) & 0x1FF)) by (bit_vector)
        requires
            b == a + (d << 12u64),
            0 < d < 0x10_0000_0000u64,
            a <= b,
    ;
}

/// Taking frames out of the free set keeps a sound table sound and the
/// remaining free frames usable.
pub proof fn lemma_fewer_free<M: TableMemory, A: FrameAllocator>(m: M, a0: A, a1: A, root: nat)
    requires
        tables_sound(m, a0, root),
        frames_usable(m, a0),
        forall|g: nat| #[trigger] a1.is_free(g) ==> a0.is_free(g),
    ensures
        tables_sound(m, a1, root),
        frames_usable(m, a1),
{
    reveal(levels_sound);
    let ls = choose|l3: Set<nat>, l2: Set<nat>, l1: Set<nat>| levels_sound(m, a0, root, l3, l2, l1);
    assert(levels_sound(m, a1, root, ls.0, ls.1, ls.2));
}

} // verus!
