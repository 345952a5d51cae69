//! Lists of windows read as sets of instants: merging, subtraction,
//! complement, coverage and intersection.
use vstd::prelude::*;
use crate::time::Window;
use crate::sort::{SortKey, sort_by_key, sorted_by_key, lemma_same_multiset_same_elements};

verus! {

broadcast use vstd::seq_lib::group_seq_properties;

/// Windows are ordered by start, then by end: the key places the start above
/// every possible end.
impl SortKey for Window {
    open spec fn key_of(&self) -> int {
        self.start as int * 0x1_0000_0000_0000_0000 + (self.end as int + 0x8000_0000_0000_0000)
    }

    fn key(&self) -> (k: i128) {
        self.start as i128 * 0x1_0000_0000_0000_0000i128 + (self.end as i128 + 0x8000_0000_0000_0000i128)
    }
}

/// `a` comes no later than `b` in the order by start, then end.
pub open spec fn window_le(a: Window, b: Window) -> bool {
    a.start < b.start || (a.start == b.start && a.end <= b.end)
}

pub proof fn lemma_window_key(a: Window, b: Window)
    ensures
        a.key_of() <= b.key_of() <==> window_le(a, b),
{
}

/// Some window of `ws` holds the instant `t`.
pub open spec fn covers_at(ws: Seq<Window>, t: int) -> bool {
    exists|i: int| 0 <= i < ws.len() && (#[trigger] ws[i]).has(t)
}

/// The canonical form of a set of instants: non-empty windows in increasing
/// order, each separated from the next by at least one instant.
pub open spec fn canonical(ws: Seq<Window>) -> bool {
    &&& forall|i: int| 0 <= i < ws.len() ==> (#[trigger] ws[i]).start < ws[i].end
    &&& forall|i: int, j: int| 0 <= i < j < ws.len() ==> (#[trigger] ws[i]).end < (#[trigger] ws[j]).start
}

/// The windows of `ws` come in order of their starts.
pub open spec fn starts_sorted(ws: Seq<Window>) -> bool {
    forall|i: int, j: int| 0 <= i <= j < ws.len() ==> (#[trigger] ws[i]).start <= (#[trigger] ws[j]).start
}

/// Every window of `ws` lies inside `q`.
pub open spec fn within(ws: Seq<Window>, q: Window) -> bool {
    forall|i: int| 0 <= i < ws.len() ==> q.start <= (#[trigger] ws[i]).start && ws[i].end <= q.end
}

/// Two window lists hold the same instants.
pub open spec fn same_instants(a: Seq<Window>, b: Seq<Window>) -> bool {
    forall|t: int| #![trigger covers_at(a, t)] #![trigger covers_at(b, t)] covers_at(a, t) == covers_at(b, t)
}

/// The empty windows of `ws` removed, the others kept in order.
fn retain_nonempty(windows: &Vec<Window>) -> (r: Vec<Window>)
    ensures
        forall|i: int| 0 <= i < r.len() ==> (#[trigger] r@[i]).start < r@[i].end,
        same_instants(r@, windows@),
        forall|i: int| 0 <= i < r.len() ==> windows@.contains(#[trigger] r@[i]),
{
    let mut r: Vec<Window> = Vec::new();
    let mut k: usize = 0;
    while k < windows.len()
        invariant
            k <= windows.len(),
            forall|i: int| 0 <= i < r.len() ==> (#[trigger] r@[i]).start < r@[i].end,
            forall|t: int| covers_at(r@, t) == covers_at(windows@.subrange(0, k as int), t),
            forall|i: int| 0 <= i < r.len() ==> windows@.contains(#[trigger] r@[i]),
        decreases windows.len() - k,
    {
        let w = windows[k];
        let ghost old_r = r@;
        if w.start < w.end {
            r.push(w);
        }
        proof {
            let pre = windows@.subrange(0, k as int);
            let post = windows@.subrange(0, k + 1);
            assert forall|t: int| covers_at(r@, t) == covers_at(post, t) by {
                if covers_at(post, t) {
                    let i = choose|i: int| 0 <= i < post.len() && (#[trigger] post[i]).has(t);
                    if i < k {
                        assert(pre[i] == post[i]);
                        assert(covers_at(pre, t));
                        assert(covers_at(old_r, t));
                        let m = choose|m: int| 0 <= m < old_r.len() && (#[trigger] old_r[m]).has(t);
                        assert(r@[m] == old_r[m]);
                    } else {
                        assert(r@[r@.len() - 1] == w);
                    }
                }
                if covers_at(r@, t) {
                    let m = choose|m: int| 0 <= m < r@.len() && (#[trigger] r@[m]).has(t);
                    if m < old_r.len() {
                        assert(old_r[m] == r@[m]);
                        assert(covers_at(old_r, t));
                        assert(covers_at(pre, t));
                        let i = choose|i: int| 0 <= i < pre.len() && (#[trigger] pre[i]).has(t);
                        assert(post[i] == pre[i]);
                    } else {
                        assert(post[k as int] == w);
                    }
                }
            }
            assert forall|i: int| 0 <= i < r.len() implies windows@.contains(#[trigger] r@[i]) by {
                if i < old_r.len() {
                    assert(r@[i] == old_r[i]);
                } else {
                    assert(windows@[k as int] == w);
                }
            }
        }
        k = k + 1;
    }
    proof {
        assert(windows@.subrange(0, windows.len() as int) =~= windows@);
    }
    r
}

/// The first window of a canonical list starts at its first instant and ends
/// at the first instant after it that the list does not hold.
proof fn lemma_canonical_head(a: Seq<Window>)
    requires
        canonical(a),
        a.len() > 0,
    ensures
        covers_at(a, a[0].start as int),
        !covers_at(a, a[0].end as int),
        forall|t: int| t < a[0].start ==> !#[trigger] covers_at(a, t),
        forall|t: int| a[0].has(t) ==> #[trigger] covers_at(a, t),
{
    assert(a[0].has(a[0].start as int));
    assert forall|t: int| t < a[0].start implies !#[trigger] covers_at(a, t) by {
        if covers_at(a, t) {
            let i = choose|i: int| 0 <= i < a.len() && (#[trigger] a[i]).has(t);
            if i > 0 {
                assert(a[0].end < a[i].start);
            }
        }
    }
    assert(!covers_at(a, a[0].end as int)) by {
        if covers_at(a, a[0].end as int) {
            let i = choose|i: int| 0 <= i < a.len() && (#[trigger] a[i]).has(a[0].end as int);
            if i > 0 {
                assert(a[0].end < a[i].start);
            }
        }
    }
}

/// A set of instants has one canonical form: two canonical lists holding the
/// same instants are equal.
pub proof fn lemma_canonical_unique(a: Seq<Window>, b: Seq<Window>)
    requires
        canonical(a),
        canonical(b),
        same_instants(a, b),
    ensures
        a == b,
    decreases a.len(),
{
    if a.len() == 0 || b.len() == 0 {
        if a.len() > 0 {
            lemma_canonical_head(a);
            assert(covers_at(b, a[0].start as int));
        }
        if b.len() > 0 {
            lemma_canonical_head(b);
            assert(covers_at(a, b[0].start as int));
        }
        assert(a =~= b);
    } else {
        lemma_canonical_head(a);
        lemma_canonical_head(b);
        let x = a[0];
        let y = b[0];
        assert(covers_at(b, x.start as int));
        assert(covers_at(a, y.start as int));
        assert(x.start == y.start);
        if x.end < y.end {
            assert(y.has(x.end as int));
            assert(covers_at(b, x.end as int));
        }
        if y.end < x.end {
            assert(x.has(y.end as int));
            assert(covers_at(a, y.end as int));
        }
        assert(x == y);
        let ta = a.subrange(1, a.len() as int);
        let tb = b.subrange(1, b.len() as int);
        assert(canonical(ta)) by {
            assert forall|i: int, j: int| 0 <= i < j < ta.len() implies (#[trigger] ta[i]).end < (#[trigger] ta[j]).start by {
                assert(ta[i] == a[i + 1] && ta[j] == a[j + 1]);
            }
            assert forall|i: int| 0 <= i < ta.len() implies (#[trigger] ta[i]).start < ta[i].end by {
                assert(ta[i] == a[i + 1]);
            }
        }
        assert(canonical(tb)) by {
            assert forall|i: int, j: int| 0 <= i < j < tb.len() implies (#[trigger] tb[i]).end < (#[trigger] tb[j]).start by {
                assert(tb[i] == b[i + 1] && tb[j] == b[j + 1]);
            }
            assert forall|i: int| 0 <= i < tb.len() implies (#[trigger] tb[i]).start < tb[i].end by {
                assert(tb[i] == b[i + 1]);
            }
        }
        assert forall|t: int| #[trigger] covers_at(ta, t) <==> (covers_at(a, t) && !x.has(t)) by {
            if covers_at(ta, t) {
                let i = choose|i: int| 0 <= i < ta.len() && (#[trigger] ta[i]).has(t);
                assert(ta[i] == a[i + 1]);
                assert(a[0].end < a[i + 1].start);
            }
            if covers_at(a, t) && !x.has(t) {
                let i = choose|i: int| 0 <= i < a.len() && (#[trigger] a[i]).has(t);
                assert(i > 0);
                assert(ta[i - 1] == a[i]);
            }
        }
        assert forall|t: int| #[trigger] covers_at(tb, t) <==> (covers_at(b, t) && !y.has(t)) by {
            if covers_at(tb, t) {
                let i = choose|i: int| 0 <= i < tb.len() && (#[trigger] tb[i]).has(t);
                assert(tb[i] == b[i + 1]);
                assert(b[0].end < b[i + 1].start);
            }
            if covers_at(b, t) && !y.has(t) {
                let i = choose|i: int| 0 <= i < b.len() && (#[trigger] b[i]).has(t);
                assert(i > 0);
                assert(tb[i - 1] == b[i]);
            }
        }
        assert(same_instants(ta, tb)) by {
            assert forall|t: int| covers_at(ta, t) == covers_at(tb, t) by {
                assert(covers_at(a, t) == covers_at(b, t));
            }
        }
        lemma_canonical_unique(ta, tb);
        assert(a =~= seq![x] + ta);
        assert(b =~= seq![y] + tb);
    }
}

/// Two sequences with the same multiset hold the same instants.
pub proof fn lemma_multiset_same_instants(a: Seq<Window>, b: Seq<Window>)
    requires
        a.to_multiset() == b.to_multiset(),
    ensures
        same_instants(a, b),
        forall|x: Window| a.contains(x) <==> b.contains(x),
{
    lemma_same_multiset_same_elements(a, b);
    assert forall|t: int| #[trigger] covers_at(a, t) == covers_at(b, t) by {
        if covers_at(a, t) {
            let i = choose|i: int| 0 <= i < a.len() && (#[trigger] a[i]).has(t);
            assert(a.contains(a[i]));
            let j = choose|j: int| 0 <= j < b.len() && b[j] == a[i];
            assert(b[j].has(t));
        }
        if covers_at(b, t) {
            let i = choose|i: int| 0 <= i < b.len() && (#[trigger] b[i]).has(t);
            assert(b.contains(b[i]));
            let j = choose|j: int| 0 <= j < a.len() && a[j] == b[i];
            assert(a[j].has(t));
        }
    }
}

/// The canonical form of the union of `windows`.
pub fn merge(windows: Vec<Window>) -> (merged: Vec<Window>)
    ensures
        canonical(merged@),
        same_instants(merged@, windows@),
        forall|i: int| 0 <= i < merged.len() ==> exists|j: int| 0 <= j < windows.len() && (#[trigger] windows@[j]).start == (#[trigger] merged@[i]).start,
        forall|i: int| 0 <= i < merged.len() ==> exists|j: int| 0 <= j < windows.len() && (#[trigger] windows@[j]).end == (#[trigger] merged@[i]).end,
{
    let kept = retain_nonempty(&windows);
    let sorted = sort_by_key(kept);
    proof {
        lemma_multiset_same_instants(sorted@, kept@);
        assert forall|i: int| 0 <= i < sorted.len() implies (#[trigger] sorted@[i]).start < sorted@[i].end by {
            assert(sorted@.contains(sorted@[i]));
            assert(kept@.contains(sorted@[i]));
        }
    }
    let mut merged: Vec<Window> = Vec::new();
    let mut k: usize = 0;
    while k < sorted.len()
        invariant
            k <= sorted.len(),
            sorted_by_key(sorted@),
            forall|i: int| 0 <= i < sorted.len() ==> (#[trigger] sorted@[i]).start < sorted@[i].end,
            canonical(merged@),
            forall|t: int| covers_at(merged@, t) == covers_at(sorted@.subrange(0, k as int), t),
            k > 0 ==> merged.len() > 0,
            merged.len() > 0 ==> k > 0 && merged@.last().start <= sorted@[k - 1].start,
            forall|i: int| 0 <= i < merged.len() ==> exists|j: int| 0 <= j < k && (#[trigger] sorted@[j]).start == (#[trigger] merged@[i]).start,
            forall|i: int| 0 <= i < merged.len() ==> exists|j: int| 0 <= j < k && (#[trigger] sorted@[j]).end == (#[trigger] merged@[i]).end,
        decreases sorted.len() - k,
    {
        let w = sorted[k];
        let ghost old_m = merged@;
        let ghost pre = sorted@.subrange(0, k as int);
        let ghost post = sorted@.subrange(0, k + 1);
        let n = merged.len();
        if n > 0 && w.start <= merged[n - 1].end {
            let last = merged[n - 1];
            let new_end = if last.end < w.end { w.end } else { last.end };
            merged.set(n - 1, Window { start: last.start, end: new_end });
            proof {
                assert(sorted@[k - 1].key_of() <= sorted@[k as int].key_of());
                lemma_window_key(sorted@[k - 1], sorted@[k as int]);
                assert forall|i: int, j: int| 0 <= i < j < merged@.len() implies (#[trigger] merged@[i]).end < (#[trigger] merged@[j]).start by {
                    assert(old_m[i].end < old_m[j].start);
                }
                assert forall|t: int| covers_at(merged@, t) == covers_at(post, t) by {
                    if covers_at(post, t) {
                        let i = choose|i: int| 0 <= i < post.len() && (#[trigger] post[i]).has(t);
                        if i < k {
                            assert(pre[i] == post[i]);
                            assert(covers_at(old_m, t));
                            let m = choose|m: int| 0 <= m < old_m.len() && (#[trigger] old_m[m]).has(t);
                            if m == n - 1 {
                                assert(merged@[m].has(t));
                            } else {
                                assert(merged@[m] == old_m[m]);
                            }
                        } else {
                            assert(merged@[n - 1].has(t));
                        }
                    }
                    if covers_at(merged@, t) {
                        let m = choose|m: int| 0 <= m < merged@.len() && (#[trigger] merged@[m]).has(t);
                        if m < n - 1 {
                            assert(old_m[m] == merged@[m]);
                            assert(covers_at(old_m, t));
                            let i = choose|i: int| 0 <= i < pre.len() && (#[trigger] pre[i]).has(t);
                            assert(post[i] == pre[i]);
                        } else if old_m[n - 1].has(t) {
                            assert(covers_at(old_m, t));
                            let i = choose|i: int| 0 <= i < pre.len() && (#[trigger] pre[i]).has(t);
                            assert(post[i] == pre[i]);
                        } else {
                            assert(post[k as int] == w);
                            assert(w.has(t));
                        }
                    }
                }
                assert forall|i: int| 0 <= i < merged.len() implies exists|j: int| 0 <= j < k + 1 && (#[trigger] sorted@[j]).start == (#[trigger] merged@[i]).start by {
                    assert(merged@[i].start == old_m[i].start);
                }
                assert forall|i: int| 0 <= i < merged.len() implies exists|j: int| 0 <= j < k + 1 && (#[trigger] sorted@[j]).end == (#[trigger] merged@[i]).end by {
                    if i < n - 1 {
                        assert(merged@[i] == old_m[i]);
                    } else if last.end < w.end {
                        assert(sorted@[k as int].end == merged@[i].end);
                    } else {
                        assert(merged@[i].end == old_m[i].end);
                    }
                }
            }
        } else {
            merged.push(w);
            proof {
                if n > 0 {
                    assert(sorted@[k - 1].key_of() <= sorted@[k as int].key_of());
                    lemma_window_key(sorted@[k - 1], sorted@[k as int]);
                }
                assert forall|i: int, j: int| 0 <= i < j < merged@.len() implies (#[trigger] merged@[i]).end < (#[trigger] merged@[j]).start by {
                    if j == n {
                        assert(old_m[i].end <= old_m[n - 1].end);
                        if i < n - 1 {
                            assert(old_m[i].end < old_m[n - 1].start);
                        }
                    } else {
                        assert(old_m[i].end < old_m[j].start);
                    }
                }
                assert forall|t: int| covers_at(merged@, t) == covers_at(post, t) by {
                    if covers_at(post, t) {
                        let i = choose|i: int| 0 <= i < post.len() && (#[trigger] post[i]).has(t);
                        if i < k {
                            assert(pre[i] == post[i]);
                            assert(covers_at(old_m, t));
                            let m = choose|m: int| 0 <= m < old_m.len() && (#[trigger] old_m[m]).has(t);
                            assert(merged@[m] == old_m[m]);
                        } else {
                            assert(merged@[n as int] == w);
                        }
                    }
                    if covers_at(merged@, t) {
                        let m = choose|m: int| 0 <= m < merged@.len() && (#[trigger] merged@[m]).has(t);
                        if m < n {
                            assert(old_m[m] == merged@[m]);
                            assert(covers_at(old_m, t));
                            let i = choose|i: int| 0 <= i < pre.len() && (#[trigger] pre[i]).has(t);
                            assert(post[i] == pre[i]);
                        } else {
                            assert(post[k as int] == w);
                        }
                    }
                }
                assert forall|i: int| 0 <= i < merged.len() implies exists|j: int| 0 <= j < k + 1 && (#[trigger] sorted@[j]).start == (#[trigger] merged@[i]).start by {
                    if i < n {
                        assert(merged@[i] == old_m[i]);
                    } else {
                        assert(sorted@[k as int].start == merged@[i].start);
                    }
                }
                assert forall|i: int| 0 <= i < merged.len() implies exists|j: int| 0 <= j < k + 1 && (#[trigger] sorted@[j]).end == (#[trigger] merged@[i]).end by {
                    if i < n {
                        assert(merged@[i] == old_m[i]);
                    } else {
                        assert(sorted@[k as int].end == merged@[i].end);
                    }
                }
            }
        }
        k = k + 1;
    }
    proof {
        assert(sorted@.subrange(0, sorted.len() as int) =~= sorted@);
        lemma_same_multiset_same_elements(sorted@, kept@);
        assert forall|i: int| 0 <= i < merged.len() implies exists|j: int| 0 <= j < windows.len() && (#[trigger] windows@[j]).start == (#[trigger] merged@[i]).start by {
            let j = choose|j: int| 0 <= j < sorted.len() && (#[trigger] sorted@[j]).start == merged@[i].start;
            assert(kept@.contains(sorted@[j]));
            let a = choose|a: int| 0 <= a < kept@.len() && kept@[a] == sorted@[j];
            assert(windows@.contains(kept@[a]));
        }
        assert forall|i: int| 0 <= i < merged.len() implies exists|j: int| 0 <= j < windows.len() && (#[trigger] windows@[j]).end == (#[trigger] merged@[i]).end by {
            let j = choose|j: int| 0 <= j < sorted.len() && (#[trigger] sorted@[j]).end == merged@[i].end;
            assert(kept@.contains(sorted@[j]));
            let a = choose|a: int| 0 <= a < kept@.len() && kept@[a] == sorted@[j];
            assert(windows@.contains(kept@[a]));
        }
    }
    merged
}

/// Appends to `result` the parts of `window` that lie outside `closed`.
pub fn subtract_into(window: Window, closed: Window, result: &mut Vec<Window>)
    requires
        window.start < window.end,
    ensures
        final(result)@.len() >= old(result)@.len(),
        final(result)@.subrange(0, old(result)@.len() as int) == old(result)@,
        forall|t: int| covers_at(final(result)@.subrange(old(result)@.len() as int, final(result)@.len() as int), t)
            <==> (window.has(t) && !closed.has(t)),
        forall|i: int| old(result)@.len() <= i < final(result)@.len() ==> (#[trigger] final(result)@[i]).start < final(result)@[i].end
            && window.start <= final(result)@[i].start && final(result)@[i].end <= window.end,
        final(result)@.len() <= old(result)@.len() + 2,
        closed.start <= closed.end ==> forall|i: int, j: int|
            old(result)@.len() <= i < j < final(result)@.len()
                ==> (#[trigger] final(result)@[i]).end <= (#[trigger] final(result)@[j]).start,
{
    let ghost n = result@.len();
    if !(window.start < closed.end && closed.start < window.end) {
        result.push(window);
        proof {
            let added = result@.subrange(n as int, result@.len() as int);
            assert(added =~= seq![window]);
            assert forall|t: int| covers_at(added, t) <==> (window.has(t) && !closed.has(t)) by {
                if covers_at(added, t) {
                    let i = choose|i: int| 0 <= i < added.len() && (#[trigger] added[i]).has(t);
                    assert(added[i] == window);
                }
                if window.has(t) {
                    assert(added[0].has(t));
                }
            }
            assert(result@.subrange(0, n as int) =~= old(result)@);
        }
        return;
    }
    if window.start < closed.start {
        let end = if window.end < closed.start { window.end } else { closed.start };
        if window.start < end {
            result.push(Window { start: window.start, end });
        }
    }
    let ghost mid = result@;
    if closed.end < window.end {
        let start = if window.start < closed.end { closed.end } else { window.start };
        if start < window.end {
            result.push(Window { start, end: window.end });
        }
    }
    proof {
        let added = result@.subrange(n as int, result@.len() as int);
        assert(result@.subrange(0, n as int) =~= old(result)@);
        assert forall|t: int| covers_at(added, t) <==> (window.has(t) && !closed.has(t)) by {
            if covers_at(added, t) {
                let i = choose|i: int| 0 <= i < added.len() && (#[trigger] added[i]).has(t);
                assert(added[i] == result@[n + i]);
            }
            if window.has(t) && !closed.has(t) {
                if t < closed.start {
                    assert(result@[n as int].has(t));
                    assert(added[0] == result@[n as int]);
                } else {
                    assert(result@[result@.len() - 1].has(t));
                    assert(added[added.len() - 1] == result@[result@.len() - 1]);
                }
            }
        }
    }
}

/// The parts of `query` not covered by the canonical `open_windows` that lie inside it.
pub fn complement(query: Window, open_windows: &Vec<Window>) -> (r: Vec<Window>)
    requires
        query.start <= query.end,
        canonical(open_windows@),
        within(open_windows@, query),
    ensures
        canonical(r@),
        within(r@, query),
        forall|t: int| #[trigger] covers_at(r@, t) <==> (query.has(t) && !covers_at(open_windows@, t)),
{
    let mut result: Vec<Window> = Vec::new();
    let mut cursor = query.start;
    let mut k: usize = 0;
    while k < open_windows.len()
        invariant
            k <= open_windows.len(),
            canonical(open_windows@),
            within(open_windows@, query),
            query.start <= cursor <= query.end,
            canonical(result@),
            within(result@, query),
            forall|i: int| 0 <= i < result.len() ==> (#[trigger] result@[i]).end < cursor,
            k > 0 ==> cursor == open_windows@[k - 1].end,
            k == 0 ==> cursor == query.start,
            forall|i: int| 0 <= i < k ==> (#[trigger] open_windows@[i]).end <= cursor,
            forall|t: int| query.start <= t < cursor ==> (#[trigger] covers_at(result@, t) <==> !covers_at(
                open_windows@,
                t,
            )),
            forall|t: int| covers_at(result@, t) ==> t < cursor,
        decreases open_windows.len() - k,
    {
        let w = open_windows[k];
        let ghost old_r = result@;
        let ghost old_cursor = cursor;
        proof {
            if k > 0 {
                assert(open_windows@[k - 1].end < open_windows@[k as int].start);
            }
            assert(w.start < w.end);
            assert(query.start <= w.start);
            assert(w.end > cursor);
        }
        if w.start > cursor {
            result.push(Window { start: cursor, end: w.start });
        }
        if w.end > cursor {
            cursor = w.end;
        }
        proof {
            assert forall|i: int, j: int| 0 <= i < j < result@.len() implies (#[trigger] result@[i]).end < (#[trigger] result@[j]).start by {
                if j == old_r.len() {
                    assert(old_r[i].end < old_cursor);
                } else {
                    assert(old_r[i] == result@[i] && old_r[j] == result@[j]);
                }
            }
            assert forall|t: int| query.start <= t < cursor implies (#[trigger] covers_at(result@, t) <==> !covers_at(
                open_windows@,
                t,
            )) by {
                if covers_at(open_windows@, t) {
                    let i = choose|i: int| 0 <= i < open_windows@.len() && (#[trigger] open_windows@[i]).has(t);
                    if covers_at(result@, t) {
                        let m = choose|m: int| 0 <= m < result@.len() && (#[trigger] result@[m]).has(t);
                        if m < old_r.len() {
                            assert(old_r[m] == result@[m]);
                            assert(covers_at(old_r, t));
                            if t >= old_cursor {
                                assert(old_r[m].end <= old_cursor);
                            }
                        }
                        if i < k {
                            assert(open_windows@[i].end <= old_cursor);
                        }
                        if i > k {
                            assert(open_windows@[k as int].end < open_windows@[i].start);
                        }
                    }
                } else {
                    if t < old_cursor {
                        assert(covers_at(old_r, t));
                        let m = choose|m: int| 0 <= m < old_r.len() && (#[trigger] old_r[m]).has(t);
                        assert(result@[m] == old_r[m]);
                    } else {
                        assert(!w.has(t));
                        assert(result@[result@.len() - 1].has(t));
                    }
                }
            }
            assert forall|t: int| covers_at(result@, t) implies t < cursor by {
                let m = choose|m: int| 0 <= m < result@.len() && (#[trigger] result@[m]).has(t);
                if m < old_r.len() {
                    assert(old_r[m] == result@[m]);
                }
            }
            assert forall|i: int| 0 <= i < result.len() implies (#[trigger] result@[i]).end < cursor by {
                if i < old_r.len() {
                    assert(old_r[i] == result@[i]);
                }
            }
        }
        k = k + 1;
    }
    let ghost before_tail = result@;
    let ghost tail_cursor = cursor;
    if cursor < query.end {
        result.push(Window { start: cursor, end: query.end });
    }
    proof {
        assert forall|i: int, j: int| 0 <= i < j < result@.len() implies (#[trigger] result@[i]).end < (#[trigger] result@[j]).start by {
            if j == before_tail.len() {
                assert(before_tail[i].end < tail_cursor);
            } else {
                assert(before_tail[i] == result@[i] && before_tail[j] == result@[j]);
            }
        }
        assert forall|t: int| #[trigger] covers_at(result@, t) <==> (query.has(t) && !covers_at(open_windows@, t)) by {
            if covers_at(result@, t) {
                let m = choose|m: int| 0 <= m < result@.len() && (#[trigger] result@[m]).has(t);
                if m < before_tail.len() {
                    assert(before_tail[m] == result@[m]);
                    assert(covers_at(before_tail, t));
                } else {
                    if covers_at(open_windows@, t) {
                        let i = choose|i: int| 0 <= i < open_windows@.len() && (#[trigger] open_windows@[i]).has(t);
                        assert(open_windows@[i].end <= tail_cursor);
                    }
                }
            }
            if query.has(t) && !covers_at(open_windows@, t) {
                if t < tail_cursor {
                    assert(covers_at(before_tail, t));
                    let m = choose|m: int| 0 <= m < before_tail.len() && (#[trigger] before_tail[m]).has(t);
                    assert(result@[m] == before_tail[m]);
                } else {
                    assert(result@[result@.len() - 1].has(t));
                }
            }
        }
    }
    result
}

/// Whether `windows`, in order of their starts, cover every instant of `query`.
pub fn covers(query: Window, windows: &Vec<Window>) -> (b: bool)
    requires
        starts_sorted(windows@),
    ensures
        b <==> (forall|t: int| query.has(t) ==> #[trigger] covers_at(windows@, t)),
{
    let mut cursor = query.start;
    let mut k: usize = 0;
    if cursor >= query.end {
        return true;
    }
    while k < windows.len()
        invariant
            k <= windows.len(),
            starts_sorted(windows@),
            query.start <= cursor < query.end,
            forall|t: int| query.start <= t < cursor ==> #[trigger] covers_at(windows@, t),
            forall|i: int| 0 <= i < k ==> (#[trigger] windows@[i]).end <= cursor,
        decreases windows.len() - k,
    {
        let w = windows[k];
        if w.start > cursor {
            proof {
                assert(query.has(cursor as int));
                assert(!covers_at(windows@, cursor as int)) by {
                    if covers_at(windows@, cursor as int) {
                        let i = choose|i: int| 0 <= i < windows@.len() && (#[trigger] windows@[i]).has(cursor as int);
                        if i > k {
                            assert(windows@[k as int].start <= windows@[i].start);
                        }
                    }
                }
            }
            return false;
        }
        if w.end > cursor {
            let ghost old_cursor = cursor;
            cursor = w.end;
            if cursor >= query.end {
                proof {
                    assert forall|t: int| query.has(t) implies #[trigger] covers_at(windows@, t) by {
                        if t >= old_cursor {
                            assert(windows@[k as int].has(t));
                        }
                    }
                }
                return true;
            }
            proof {
                assert forall|t: int| query.start <= t < cursor implies #[trigger] covers_at(windows@, t) by {
                    if t >= old_cursor {
                        assert(windows@[k as int].has(t));
                    }
                }
            }
        }
        k = k + 1;
    }
    proof {
        assert(query.has(cursor as int));
        assert(!covers_at(windows@, cursor as int)) by {
            if covers_at(windows@, cursor as int) {
                let i = choose|i: int| 0 <= i < windows@.len() && (#[trigger] windows@[i]).has(cursor as int);
            }
        }
    }
    false
}

/// The canonical intersection of two canonical lists of windows.
pub fn intersect_windows(left: &Vec<Window>, right: &Vec<Window>) -> (r: Vec<Window>)
    requires
        canonical(left@),
        canonical(right@),
    ensures
        canonical(r@),
        forall|t: int| #[trigger] covers_at(r@, t) <==> covers_at(left@, t) && covers_at(right@, t),
{
    let mut result: Vec<Window> = Vec::new();
    let mut li: usize = 0;
    let mut ri: usize = 0;
    let ghost mut frontier: int = i64::MIN as int;
    while li < left.len() && ri < right.len()
        invariant
            canonical(left@),
            canonical(right@),
            li <= left@.len(),
            ri <= right@.len(),
            forall|t: int| #[trigger] covers_at(result@, t) ==> covers_at(left@, t) && covers_at(right@, t) && t < frontier,
            forall|t: int| t < frontier && covers_at(left@, t) && covers_at(right@, t) ==> #[trigger] covers_at(result@, t),
            li > 0 ==> left@[li - 1].end <= frontier,
            ri > 0 ==> right@[ri - 1].end <= frontier,
            li < left@.len() ==> frontier <= left@[li as int].end,
            ri < right@.len() ==> frontier <= right@[ri as int].end,
        decreases left@.len() + right@.len() - li - ri,
    {
        let a = left[li];
        let b = right[ri];
        let ghost old_result = result@;
        let ghost step_end: int = if a.end <= b.end { a.end as int } else { b.end as int };
        match a.intersect(b) {
            Some(w) => {
                result.push(w);
            },
            None => {},
        }
        proof {
            assert forall|t: int| #[trigger] covers_at(result@, t) implies covers_at(left@, t) && covers_at(right@, t) && t < step_end by {
                {
                    let k = choose|k: int| 0 <= k < result@.len() && (#[trigger] result@[k]).has(t);
                    if k < old_result.len() {
                        assert(old_result[k] == result@[k]);
                        assert(covers_at(old_result, t));
                    } else {
                        assert(a.has(t) && b.has(t));
                        assert(left@[li as int].has(t));
                        assert(right@[ri as int].has(t));
                    }
                }
            }
            assert forall|t: int| t < step_end && covers_at(left@, t) && covers_at(right@, t) implies #[trigger] covers_at(result@, t) by {
                if t >= frontier {
                    let i = choose|i: int| 0 <= i < left@.len() && (#[trigger] left@[i]).has(t);
                    let j = choose|j: int| 0 <= j < right@.len() && (#[trigger] right@[j]).has(t);
                    if i < li {
                        if i < li - 1 {
                            assert(left@[i].end < left@[li - 1].start);
                        }
                    } else if i > li {
                        assert(left@[li as int].end < left@[i].start);
                    }
                    if j < ri {
                        if j < ri - 1 {
                            assert(right@[j].end < right@[ri - 1].start);
                        }
                    } else if j > ri {
                        assert(right@[ri as int].end < right@[j].start);
                    }
                    assert(a.has(t) && b.has(t));
                    assert(result@[result@.len() - 1].has(t));
                } else {
                    assert(covers_at(old_result, t));
                    let k = choose|k: int| 0 <= k < old_result.len() && (#[trigger] old_result[k]).has(t);
                    assert(result@[k] == old_result[k]);
                }
            }
            if a.end <= b.end {
                if li + 1 < left@.len() {
                    assert(left@[li as int].end < left@[li + 1].start);
                }
            } else {
                if ri + 1 < right@.len() {
                    assert(right@[ri as int].end < right@[ri + 1].start);
                }
            }
            frontier = step_end;
        }
        if a.end <= b.end {
            li = li + 1;
        } else {
            ri = ri + 1;
        }
    }
    proof {
        assert forall|t: int| covers_at(left@, t) && covers_at(right@, t) implies #[trigger] covers_at(result@, t) by {
            let i = choose|i: int| 0 <= i < left@.len() && (#[trigger] left@[i]).has(t);
            let j = choose|j: int| 0 <= j < right@.len() && (#[trigger] right@[j]).has(t);
            if li == left@.len() {
                if i < li - 1 {
                    assert(left@[i].end < left@[li - 1].start);
                }
            } else {
                if j < ri - 1 {
                    assert(right@[j].end < right@[ri - 1].start);
                }
            }
        }
    }
    let r = merge(result);
    r
}

} // verus!
