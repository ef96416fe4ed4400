//! The mathematical model of a first-fit free-list: a sorted sequence of
//! frame spans, and what allocating from it and releasing into it yield.
use vstd::prelude::*;

use crate::frame::FrameSpan;

verus! {

/// Entries are non-empty, strictly increasing, and neither overlap nor touch.
pub open spec fn free_list_wf(s: Seq<FrameSpan>) -> bool {
    &&& forall|i: int| 0 <= i < s.len() ==> #[trigger] s[i].lo < s[i].hi
    &&& forall|i: int, j: int| 0 <= i < j < s.len() ==> #[trigger] s[i].hi < #[trigger] s[j].lo
}

/// Frame `f` lies in some entry.
pub open spec fn holds_frame(s: Seq<FrameSpan>, f: nat) -> bool {
    exists|i: int| 0 <= i < s.len() && #[trigger] s[i].contains(f)
}

/// `r` shares no frame with any entry.
pub open spec fn apart_from_all(s: Seq<FrameSpan>, r: FrameSpan) -> bool {
    forall|i: int| 0 <= i < s.len() ==> #[trigger] s[i].disjoint(r)
}

/// Index of the first entry at or after `i` with at least `n` frames, or
/// the length when there is none.
pub open spec fn first_fit_from(s: Seq<FrameSpan>, n: nat, i: int) -> int
    decreases s.len() - i,
{
    if i < 0 || i >= s.len() {
        s.len() as int
    } else if s[i].len() >= n {
        i
    } else {
        first_fit_from(s, n, i + 1)
    }
}

/// Index of the leftmost entry with at least `n` frames, or the length.
pub open spec fn first_fit(s: Seq<FrameSpan>, n: nat) -> int {
    first_fit_from(s, n, 0)
}

/// The free-list after `n` frames are taken from the front of the leftmost
/// entry that has enough of them (unchanged when none has).
pub open spec fn allocated(s: Seq<FrameSpan>, n: nat) -> Seq<FrameSpan> {
    let k = first_fit(s, n);
    if k >= s.len() {
        s
    } else if s[k].len() == n {
        s.remove(k)
    } else {
        s.update(k, FrameSpan { lo: s[k].lo + n, hi: s[k].hi })
    }
}

/// Index of the first entry at or after `i` that ends after frame `x`, or
/// the length.
pub open spec fn split_from(s: Seq<FrameSpan>, x: nat, i: int) -> int
    decreases s.len() - i,
{
    if i < 0 || i >= s.len() {
        s.len() as int
    } else if s[i].hi > x {
        i
    } else {
        split_from(s, x, i + 1)
    }
}

/// Where a span starting at `x` goes: the number of entries that end at or
/// before `x`.
pub open spec fn split_index(s: Seq<FrameSpan>, x: nat) -> int {
    split_from(s, x, 0)
}

/// The entry before the insertion point ends exactly where `r` starts.
pub open spec fn joins_prev(s: Seq<FrameSpan>, r: FrameSpan) -> bool {
    let k = split_index(s, r.lo);
    k > 0 && s[k - 1].hi == r.lo
}

/// The entry at the insertion point starts exactly where `r` ends.
pub open spec fn joins_next(s: Seq<FrameSpan>, r: FrameSpan) -> bool {
    let k = split_index(s, r.lo);
    k < s.len() && r.hi == s[k].lo
}

/// Releasing `r` would need a new entry, and all `cap` slots are taken.
pub open spec fn leaks(s: Seq<FrameSpan>, r: FrameSpan, cap: nat) -> bool {
    r.lo < r.hi && !joins_prev(s, r) && !joins_next(s, r) && s.len() >= cap
}

/// The free-list after releasing `r`: merged into the neighbours it touches,
/// or inserted in order as an entry of its own when a slot is left.
pub open spec fn freed(s: Seq<FrameSpan>, r: FrameSpan, cap: nat) -> Seq<FrameSpan> {
    let k = split_index(s, r.lo);
    if r.lo >= r.hi {
        s
    } else if joins_prev(s, r) && joins_next(s, r) {
        s.update(k - 1, FrameSpan { lo: s[k - 1].lo, hi: s[k].hi }).remove(k)
    } else if joins_prev(s, r) {
        s.update(k - 1, FrameSpan { lo: s[k - 1].lo, hi: r.hi })
    } else if joins_next(s, r) {
        s.update(k, FrameSpan { lo: r.lo, hi: s[k].hi })
    } else if s.len() < cap {
        s.insert(k, r)
    } else {
        s
    }
}

proof fn lemma_first_fit_from(s: Seq<FrameSpan>, n: nat, i: int)
    requires
        0 <= i <= s.len(),
    ensures
        i <= first_fit_from(s, n, i) <= s.len(),
        forall|j: int| i <= j < first_fit_from(s, n, i) ==> #[trigger] s[j].len() < n,
        first_fit_from(s, n, i) < s.len() ==> s[first_fit_from(s, n, i)].len() >= n,
    decreases s.len() - i,
{
    if i < s.len() && s[i].len() < n {
        lemma_first_fit_from(s, n, i + 1);
    }
}

/// The leftmost entry with `n` frames or more, and none before it.
pub proof fn lemma_first_fit(s: Seq<FrameSpan>, n: nat)
    ensures
        0 <= first_fit(s, n) <= s.len(),
        forall|j: int| 0 <= j < first_fit(s, n) ==> #[trigger] s[j].len() < n,
        first_fit(s, n) < s.len() ==> s[first_fit(s, n)].len() >= n,
{
    lemma_first_fit_from(s, n, 0);
}

proof fn lemma_split_from(s: Seq<FrameSpan>, x: nat, i: int)
    requires
        0 <= i <= s.len(),
    ensures
        i <= split_from(s, x, i) <= s.len(),
        forall|j: int| i <= j < split_from(s, x, i) ==> #[trigger] s[j].hi <= x,
        split_from(s, x, i) < s.len() ==> s[split_from(s, x, i)].hi > x,
    decreases s.len() - i,
{
    if i < s.len() && s[i].hi <= x {
        lemma_split_from(s, x, i + 1);
    }
}

/// In a well-formed list the entries before the split point end at or before
/// `x`, and those from it on end after `x`.
pub proof fn lemma_split_index(s: Seq<FrameSpan>, x: nat)
    requires
        free_list_wf(s),
    ensures
        0 <= split_index(s, x) <= s.len(),
        forall|j: int| 0 <= j < split_index(s, x) ==> #[trigger] s[j].hi <= x,
        forall|j: int| split_index(s, x) <= j < s.len() ==> #[trigger] s[j].hi > x,
{
    lemma_split_from(s, x, 0);
    let k = split_index(s, x);
    assert forall|j: int| k <= j < s.len() implies #[trigger] s[j].hi > x by {
        if j > k {
            assert(s[k].hi < s[j].lo);
        }
    }
}

/// Allocation keeps the list well formed and removes exactly the frames it
/// hands out.
pub proof fn lemma_allocated(s: Seq<FrameSpan>, n: nat)
    requires
        free_list_wf(s),
        first_fit(s, n) < s.len(),
    ensures
        free_list_wf(allocated(s, n)),
        forall|f: nat|
            holds_frame(allocated(s, n), f) <==> (holds_frame(s, f) && !(s[first_fit(s, n)].lo
                <= f < s[first_fit(s, n)].lo + n)),
{
    lemma_first_fit(s, n);
    let k = first_fit(s, n);
    let t = allocated(s, n);
    let lo = s[k].lo;
    if s[k].len() == n {
        assert forall|i: int, j: int| 0 <= i < j < t.len() implies #[trigger] t[i].hi
            < #[trigger] t[j].lo by {
            let a = if i < k { i } else { i + 1 };
            let b = if j < k { j } else { j + 1 };
            assert(s[a].hi < s[b].lo);
        }
        assert forall|f: nat|
            holds_frame(t, f) <==> (holds_frame(s, f) && !(lo <= f < lo + n)) by {
            if holds_frame(t, f) {
                let i = choose|i: int| 0 <= i < t.len() && #[trigger] t[i].contains(f);
                let a = if i < k { i } else { i + 1 };
                assert(s[a].contains(f));
                if a < k {
                    assert(s[a].hi < s[k].lo);
                } else {
                    assert(s[k].hi < s[a].lo);
                }
            }
            if holds_frame(s, f) && !(lo <= f < lo + n) {
                let a = choose|a: int| 0 <= a < s.len() && #[trigger] s[a].contains(f);
                let i = if a < k { a } else { a - 1 };
                assert(t[i].contains(f));
            }
        }
    } else {
        assert forall|i: int, j: int| 0 <= i < j < t.len() implies #[trigger] t[i].hi
            < #[trigger] t[j].lo by {
            assert(s[i].hi < s[j].lo);
        }
        assert forall|f: nat|
            holds_frame(t, f) <==> (holds_frame(s, f) && !(lo <= f < lo + n)) by {
            if holds_frame(t, f) {
                let i = choose|i: int| 0 <= i < t.len() && #[trigger] t[i].contains(f);
                assert(s[i].contains(f));
                if i < k {
                    assert(s[i].hi < s[k].lo);
                } else if i > k {
                    assert(s[k].hi < s[i].lo);
                }
            }
            if holds_frame(s, f) && !(lo <= f < lo + n) {
                let a = choose|a: int| 0 <= a < s.len() && #[trigger] s[a].contains(f);
                assert(t[a].contains(f));
            }
        }
    }
}

/// `r` fills the gap between two entries, which become one.
proof fn lemma_freed_both(s: Seq<FrameSpan>, r: FrameSpan, k: int)
    requires
        free_list_wf(s),
        r.lo < r.hi,
        0 <= k <= s.len(),
        forall|j: int| 0 <= j < k ==> #[trigger] s[j].hi <= r.lo,
        forall|j: int| k <= j < s.len() ==> #[trigger] s[j].lo >= r.hi,
        0 < k < s.len(),
        s[k - 1].hi == r.lo,
        r.hi == s[k].lo,
    ensures
        free_list_wf(s.update(k - 1, FrameSpan { lo: s[k - 1].lo, hi: s[k].hi }).remove(k)),
        forall|f: nat| holds_frame(s.update(k - 1, FrameSpan { lo: s[k - 1].lo, hi: s[k].hi }).remove(k), f) <==> (holds_frame(s, f) || r.contains(f)),
{
    let t = s.update(k - 1, FrameSpan { lo: s[k - 1].lo, hi: s[k].hi }).remove(k);
    let m = FrameSpan { lo: s[k - 1].lo, hi: s[k].hi };
    let u = s.update(k - 1, m);
    assert(t == u.remove(k));
    assert forall|i: int| 0 <= i < t.len() implies #[trigger] t[i].lo < t[i].hi by {
        if i >= k {
            assert(t[i] == s[i + 1]);
        }
    }
    assert forall|i: int, j: int| 0 <= i < j < t.len() implies #[trigger] t[i].hi
        < #[trigger] t[j].lo by {
        let a = if i < k - 1 { i } else if i == k - 1 { k } else { i + 1 };
        let b = if j < k - 1 { j } else if j == k - 1 { k - 1 } else { j + 1 };
        if i == k - 1 {
            assert(t[i].hi == s[k].hi);
        } else if j == k - 1 {
            assert(t[j].lo == s[k - 1].lo);
            assert(s[i].hi < s[k - 1].lo);
        } else {
            assert(s[a].hi < s[b].lo);
        }
    }
    assert forall|f: nat| holds_frame(t, f) <==> (holds_frame(s, f) || r.contains(f)) by {
        if holds_frame(t, f) {
            let i = choose|i: int| 0 <= i < t.len() && #[trigger] t[i].contains(f);
            if i < k - 1 {
                assert(s[i].contains(f));
            } else if i == k - 1 {
                if f < s[k - 1].hi {
                    assert(s[k - 1].contains(f));
                } else if f < r.hi {
                    assert(r.contains(f));
                } else {
                    assert(s[k].contains(f));
                }
            } else {
                assert(s[i + 1].contains(f));
            }
        }
        if holds_frame(s, f) {
            let a = choose|a: int| 0 <= a < s.len() && #[trigger] s[a].contains(f);
            if a < k - 1 {
                assert(t[a].contains(f));
            } else if a == k - 1 || a == k {
                assert(t[k - 1].contains(f));
            } else {
                assert(t[a - 1].contains(f));
            }
        }
        if r.contains(f) {
            assert(t[k - 1].contains(f));
        }
    }
}

/// `r` extends the entry before it.
proof fn lemma_freed_prev(s: Seq<FrameSpan>, r: FrameSpan, k: int)
    requires
        free_list_wf(s),
        r.lo < r.hi,
        0 <= k <= s.len(),
        forall|j: int| 0 <= j < k ==> #[trigger] s[j].hi <= r.lo,
        forall|j: int| k <= j < s.len() ==> #[trigger] s[j].lo >= r.hi,
        0 < k,
        s[k - 1].hi == r.lo,
        k == s.len() || r.hi != s[k].lo,
    ensures
        free_list_wf(s.update(k - 1, FrameSpan { lo: s[k - 1].lo, hi: r.hi })),
        forall|f: nat| holds_frame(s.update(k - 1, FrameSpan { lo: s[k - 1].lo, hi: r.hi }), f) <==> (holds_frame(s, f) || r.contains(f)),
{
    let t = s.update(k - 1, FrameSpan { lo: s[k - 1].lo, hi: r.hi });
    let m = FrameSpan { lo: s[k - 1].lo, hi: r.hi };
    assert(t == s.update(k - 1, m));
    assert forall|i: int, j: int| 0 <= i < j < t.len() implies #[trigger] t[i].hi
        < #[trigger] t[j].lo by {
        if i == k - 1 {
            assert(r.hi <= s[j].lo);
            assert(r.hi != s[k].lo || j != k);
            if j > k {
                assert(s[k].lo < s[k].hi && s[k].hi < s[j].lo);
            }
        } else if j == k - 1 {
            assert(s[i].hi < s[k - 1].lo);
        } else {
            assert(s[i].hi < s[j].lo);
        }
    }
    assert forall|f: nat| holds_frame(t, f) <==> (holds_frame(s, f) || r.contains(f)) by {
        if holds_frame(t, f) {
            let i = choose|i: int| 0 <= i < t.len() && #[trigger] t[i].contains(f);
            if i == k - 1 {
                if f < s[k - 1].hi {
                    assert(s[k - 1].contains(f));
                } else {
                    assert(r.contains(f));
                }
            } else {
                assert(s[i].contains(f));
            }
        }
        if holds_frame(s, f) {
            let a = choose|a: int| 0 <= a < s.len() && #[trigger] s[a].contains(f);
            assert(t[a].contains(f));
        }
        if r.contains(f) {
            assert(t[k - 1].contains(f));
        }
    }
}

/// `r` extends the entry after it.
proof fn lemma_freed_next(s: Seq<FrameSpan>, r: FrameSpan, k: int)
    requires
        free_list_wf(s),
        r.lo < r.hi,
        0 <= k <= s.len(),
        forall|j: int| 0 <= j < k ==> #[trigger] s[j].hi <= r.lo,
        forall|j: int| k <= j < s.len() ==> #[trigger] s[j].lo >= r.hi,
        k < s.len(),
        r.hi == s[k].lo,
        k == 0 || s[k - 1].hi != r.lo,
    ensures
        free_list_wf(s.update(k, FrameSpan { lo: r.lo, hi: s[k].hi })),
        forall|f: nat| holds_frame(s.update(k, FrameSpan { lo: r.lo, hi: s[k].hi }), f) <==> (holds_frame(s, f) || r.contains(f)),
{
    let t = s.update(k, FrameSpan { lo: r.lo, hi: s[k].hi });
    let m = FrameSpan { lo: r.lo, hi: s[k].hi };
    assert(t == s.update(k, m));
    assert forall|i: int, j: int| 0 <= i < j < t.len() implies #[trigger] t[i].hi
        < #[trigger] t[j].lo by {
        if j == k {
            assert(s[i].hi <= r.lo);
            assert(k == 0 || s[k - 1].hi != r.lo);
            if i < k - 1 {
                assert(s[i].hi < s[k - 1].lo && s[k - 1].lo < s[k - 1].hi);
            }
        } else {
            assert(s[i].hi < s[j].lo);
        }
    }
    assert forall|f: nat| holds_frame(t, f) <==> (holds_frame(s, f) || r.contains(f)) by {
        if holds_frame(t, f) {
            let i = choose|i: int| 0 <= i < t.len() && #[trigger] t[i].contains(f);
            if i == k {
                if f < r.hi {
                    assert(r.contains(f));
                } else {
                    assert(s[k].contains(f));
                }
            } else {
                assert(s[i].contains(f));
            }
        }
        if holds_frame(s, f) {
            let a = choose|a: int| 0 <= a < s.len() && #[trigger] s[a].contains(f);
            assert(t[a].contains(f));
        }
        if r.contains(f) {
            assert(t[k].contains(f));
        }
    }
}

/// `r` touches no entry and becomes one of its own.
proof fn lemma_freed_insert(s: Seq<FrameSpan>, r: FrameSpan, k: int)
    requires
        free_list_wf(s),
        r.lo < r.hi,
        0 <= k <= s.len(),
        forall|j: int| 0 <= j < k ==> #[trigger] s[j].hi <= r.lo,
        forall|j: int| k <= j < s.len() ==> #[trigger] s[j].lo >= r.hi,
        k == s.len() || r.hi != s[k].lo,
        k == 0 || s[k - 1].hi != r.lo,
    ensures
        free_list_wf(s.insert(k, r)),
        forall|f: nat| holds_frame(s.insert(k, r), f) <==> (holds_frame(s, f) || r.contains(f)),
{
    let t = s.insert(k, r);
    assert(t == s.insert(k, r));
    assert forall|i: int| 0 <= i < t.len() implies #[trigger] t[i].lo < t[i].hi by {
        if i < k {
            assert(t[i] == s[i]);
        } else if i > k {
            assert(t[i] == s[i - 1]);
        }
    }
    assert forall|i: int, j: int| 0 <= i < j < t.len() implies #[trigger] t[i].hi
        < #[trigger] t[j].lo by {
        if i == k {
            assert(t[j] == s[j - 1]);
            assert(s[j - 1].lo >= r.hi);
            assert(s[k].lo != r.hi);
            if j - 1 > k {
                assert(s[k].lo < s[k].hi && s[k].hi < s[j - 1].lo);
            }
        } else if j == k {
            assert(s[i].hi <= r.lo);
            assert(s[k - 1].hi != r.lo);
            if i < k - 1 {
                assert(s[i].hi < s[k - 1].lo && s[k - 1].lo < s[k - 1].hi);
            }
        } else {
            let a = if i < k { i } else { i - 1 };
            let b = if j < k { j } else { j - 1 };
            assert(t[i] == s[a] && t[j] == s[b]);
            assert(s[a].hi < s[b].lo);
        }
    }
    assert forall|f: nat| holds_frame(t, f) <==> (holds_frame(s, f) || r.contains(f)) by {
        if holds_frame(t, f) {
            let i = choose|i: int| 0 <= i < t.len() && #[trigger] t[i].contains(f);
            if i < k {
                assert(s[i].contains(f));
            } else if i > k {
                assert(s[i - 1].contains(f));
            }
        }
        if holds_frame(s, f) {
            let a = choose|a: int| 0 <= a < s.len() && #[trigger] s[a].contains(f);
            if a < k {
                assert(t[a].contains(f));
            } else {
                assert(t[a + 1].contains(f));
            }
        }
        if r.contains(f) {
            assert(t[k].contains(f));
        }
    }}

/// Releasing a range that overlaps no entry keeps the list well formed, adds
/// exactly the range's frames unless it leaks, and adds at most one entry.
pub proof fn lemma_freed(s: Seq<FrameSpan>, r: FrameSpan, cap: nat)
    requires
        free_list_wf(s),
        r.lo < r.hi ==> apart_from_all(s, r),
    ensures
        free_list_wf(freed(s, r, cap)),
        forall|f: nat|
            holds_frame(freed(s, r, cap), f) <==> (holds_frame(s, f) || (r.contains(f) && !leaks(
                s,
                r,
                cap,
            ))),
        freed(s, r, cap).len() <= s.len() + 1,
        s.len() <= cap ==> freed(s, r, cap).len() <= cap,
{
    if r.lo >= r.hi {
        assert forall|f: nat| !r.contains(f) by {}
        return;
    }
    lemma_split_index(s, r.lo);
    let k = split_index(s, r.lo);
    assert forall|j: int| k <= j < s.len() implies #[trigger] s[j].lo >= r.hi by {
        assert(s[j].disjoint(r));
    }
    if joins_prev(s, r) && joins_next(s, r) {
        lemma_freed_both(s, r, k);
    } else if joins_prev(s, r) {
        lemma_freed_prev(s, r, k);
    } else if joins_next(s, r) {
        lemma_freed_next(s, r, k);
    } else if s.len() < cap {
        lemma_freed_insert(s, r, k);
    }
}

/// The free-list after releasing each of `rs` in turn.
pub open spec fn freed_all(s: Seq<FrameSpan>, rs: Seq<FrameSpan>, cap: nat) -> Seq<FrameSpan>
    decreases rs.len(),
{
    if rs.len() == 0 {
        s
    } else {
        freed(freed_all(s, rs.drop_last(), cap), rs.last(), cap)
    }
}

/// Some span of `rs` holds frame `f`.
pub open spec fn covered_by(rs: Seq<FrameSpan>, f: nat) -> bool {
    exists|i: int| 0 <= i < rs.len() && #[trigger] rs[i].contains(f)
}

/// A well-formed list whose frames are exactly `[lo, hi)` is that one entry.
proof fn lemma_single_entry(t: Seq<FrameSpan>, lo: nat, hi: nat)
    requires
        free_list_wf(t),
        lo < hi,
        forall|f: nat| holds_frame(t, f) <==> lo <= f < hi,
    ensures
        t == seq![FrameSpan { lo, hi }],
{
    assert(holds_frame(t, lo));
    let a = choose|a: int| 0 <= a < t.len() && #[trigger] t[a].contains(lo);
    assert(t.len() >= 1);
    assert(holds_frame(t, t[0].lo)) by {
        assert(t[0].contains(t[0].lo));
    }
    if t.len() >= 2 {
        assert(holds_frame(t, t[1].lo)) by {
            assert(t[1].contains(t[1].lo));
        }
        assert(t[0].hi < t[1].lo);
        let g = t[0].hi;
        assert(lo <= g < hi);
        assert(holds_frame(t, g));
        let b = choose|b: int| 0 <= b < t.len() && #[trigger] t[b].contains(g);
        if b > 0 {
            assert(t[0].hi < t[b].lo);
        }
        assert(false);
    }
    assert(t.len() == 1);
    assert(t[0].lo == lo) by {
        assert(holds_frame(t, t[0].lo));
        assert(t[0].contains(t[0].lo));
    }
    assert(t[0].hi == hi) by {
        let g = (t[0].hi - 1) as nat;
        assert(t[0].contains(g));
        assert(holds_frame(t, g));
        if t[0].hi < hi {
            assert(lo <= t[0].hi < hi);
            assert(!t[0].contains(t[0].hi));
            assert(!holds_frame(t, t[0].hi));
        }
    }
    assert(t =~= seq![FrameSpan { lo, hi }]);
}

proof fn lemma_freed_prefix(rs: Seq<FrameSpan>, cap: nat, m: int)
    requires
        0 <= m <= rs.len(),
        rs.len() <= cap,
        forall|i: int, j: int|
            0 <= i < j < rs.len() ==> #[trigger] rs[i].disjoint(#[trigger] rs[j]),
    ensures
        free_list_wf(freed_all(Seq::empty(), rs.take(m), cap)),
        freed_all(Seq::empty(), rs.take(m), cap).len() <= m,
        forall|f: nat|
            holds_frame(freed_all(Seq::empty(), rs.take(m), cap), f) <==> covered_by(rs.take(m), f),
    decreases m,
{
    let e = Seq::<FrameSpan>::empty();
    if m == 0 {
        assert forall|f: nat| !holds_frame(freed_all(e, rs.take(0), cap), f) && !covered_by(rs.take(0), f) by {}
        return;
    }
    lemma_freed_prefix(rs, cap, m - 1);
    let t = freed_all(e, rs.take(m - 1), cap);
    let r = rs[m - 1];
    assert(rs.take(m).drop_last() =~= rs.take(m - 1));
    assert(freed_all(e, rs.take(m), cap) == freed(t, r, cap));
    if r.lo < r.hi {
        assert forall|i: int| 0 <= i < t.len() implies #[trigger] t[i].disjoint(r) by {
            if !t[i].disjoint(r) {
                let g = if t[i].lo >= r.lo { t[i].lo } else { r.lo };
                assert(t[i].contains(g));
                assert(holds_frame(t, g));
                assert(covered_by(rs.take(m - 1), g));
                let j = choose|j: int| 0 <= j < m - 1 && #[trigger] rs.take(m - 1)[j].contains(g);
                assert(rs[j].disjoint(rs[m - 1]));
                assert(false);
            }
        }
    }
    lemma_freed(t, r, cap);
    assert forall|f: nat|
        holds_frame(freed(t, r, cap), f) <==> covered_by(rs.take(m), f) by {
        if covered_by(rs.take(m), f) {
            let j = choose|j: int| 0 <= j < m && #[trigger] rs.take(m)[j].contains(f);
            if j < m - 1 {
                assert(rs.take(m - 1)[j].contains(f));
            }
        }
        if covered_by(rs.take(m - 1), f) {
            let j = choose|j: int| 0 <= j < m - 1 && #[trigger] rs.take(m - 1)[j].contains(f);
            assert(rs.take(m)[j].contains(f));
        }
        if r.contains(f) {
            assert(rs.take(m)[m - 1].contains(f));
        }
    }
}

/// Coalescing is complete: releasing, into an empty list with a slot for
/// each, ranges that pairwise do not overlap and together cover `[lo, hi)`
/// leaves the single entry `[lo, hi)`.
pub proof fn lemma_frees_coalesce(rs: Seq<FrameSpan>, cap: nat, lo: nat, hi: nat)
    requires
        lo < hi,
        rs.len() <= cap,
        forall|i: int, j: int|
            0 <= i < j < rs.len() ==> #[trigger] rs[i].disjoint(#[trigger] rs[j]),
        forall|f: nat| covered_by(rs, f) <==> lo <= f < hi,
    ensures
        freed_all(Seq::empty(), rs, cap) == seq![FrameSpan { lo, hi }],
{
    lemma_freed_prefix(rs, cap, rs.len() as int);
    assert(rs.take(rs.len() as int) =~= rs);
    let t = freed_all(Seq::empty(), rs, cap);
    assert forall|f: nat| holds_frame(t, f) <==> lo <= f < hi by {
        assert(covered_by(rs.take(rs.len() as int), f) == covered_by(rs, f));
    }
    lemma_single_entry(t, lo, hi);
}

} // verus!
