//! Counting instants: the working time of a range is the number of
//! microseconds in it at which a predicate holds.
use vstd::prelude::*;
use crate::time::Window;
use crate::windows::{covers_at, canonical};

verus! {

broadcast use vstd::seq_lib::group_seq_properties;

/// The number of instants `t` in `[a, b)` with `p(t)`.
pub open spec fn count_where(a: int, b: int, p: spec_fn(int) -> bool) -> int
    decreases b - a,
{
    if b <= a {
        0
    } else {
        count_where(a, b - 1, p) + if p(b - 1) {
            1int
        } else {
            0int
        }
    }
}

pub proof fn lemma_count_bounds(a: int, b: int, p: spec_fn(int) -> bool)
    ensures
        0 <= count_where(a, b, p),
        b >= a ==> count_where(a, b, p) <= b - a,
    decreases b - a,
{
    if b > a {
        lemma_count_bounds(a, b - 1, p);
    }
}

/// Counting over `[a, c)` is counting over `[a, b)` and then over `[b, c)`.
pub proof fn lemma_count_split(a: int, b: int, c: int, p: spec_fn(int) -> bool)
    requires
        a <= b <= c,
    ensures
        count_where(a, c, p) == count_where(a, b, p) + count_where(b, c, p),
    decreases c - b,
{
    if c > b {
        lemma_count_split(a, b, c - 1, p);
    }
}

/// The count never decreases as the range grows.
pub proof fn lemma_count_monotone(a: int, b: int, c: int, p: spec_fn(int) -> bool)
    requires
        a <= b <= c,
    ensures
        count_where(a, b, p) <= count_where(a, c, p),
{
    lemma_count_split(a, b, c, p);
    lemma_count_bounds(b, c, p);
}

/// Where the predicate always holds, the count is the length of the range.
pub proof fn lemma_count_all(a: int, b: int, p: spec_fn(int) -> bool)
    requires
        a <= b,
        forall|t: int| a <= t < b ==> #[trigger] p(t),
    ensures
        count_where(a, b, p) == b - a,
    decreases b - a,
{
    if b > a {
        lemma_count_all(a, b - 1, p);
    }
}

/// Where the predicate never holds, the count is zero.
pub proof fn lemma_count_none(a: int, b: int, p: spec_fn(int) -> bool)
    requires
        forall|t: int| a <= t < b ==> !#[trigger] p(t),
    ensures
        count_where(a, b, p) == 0,
    decreases b - a,
{
    if b > a {
        lemma_count_none(a, b - 1, p);
    }
}

/// Predicates that agree on the range count the same.
pub proof fn lemma_count_same(a: int, b: int, p: spec_fn(int) -> bool, q: spec_fn(int) -> bool)
    requires
        forall|t: int| a <= t < b ==> #[trigger] p(t) == q(t),
    ensures
        count_where(a, b, p) == count_where(a, b, q),
    decreases b - a,
{
    if b > a {
        lemma_count_same(a, b - 1, p, q);
    }
}

/// A positive count has a first instant where the predicate holds.
pub proof fn lemma_count_positive(a: int, b: int, p: spec_fn(int) -> bool)
    requires
        count_where(a, b, p) > 0,
    ensures
        exists|t: int| a <= t < b && #[trigger] p(t),
    decreases b - a,
{
    if b > a {
        if !p(b - 1) {
            lemma_count_positive(a, b - 1, p);
        }
    }
}

/// The total length of a list of windows.
pub open spec fn total_span(ws: Seq<Window>) -> int
    decreases ws.len(),
{
    if ws.len() == 0 {
        0
    } else {
        total_span(ws.drop_last()) + ws.last().span()
    }
}

/// The instants of `[a, b)` that a canonical list inside it covers number its total length.
pub proof fn lemma_count_canonical(ws: Seq<Window>, a: int, b: int)
    requires
        canonical(ws),
        a <= b,
        forall|i: int| 0 <= i < ws.len() ==> a <= (#[trigger] ws[i]).start && ws[i].end <= b,
    ensures
        count_where(a, b, |t: int| covers_at(ws, t)) == total_span(ws),
    decreases ws.len(),
{
    let p = |t: int| covers_at(ws, t);
    if ws.len() == 0 {
        lemma_count_none(a, b, p);
    } else {
        let n = ws.len() - 1;
        let w = ws[n];
        let init = ws.drop_last();
        let q = |t: int| covers_at(init, t);
        assert(canonical(init)) by {
            assert forall|i: int, j: int| 0 <= i < j < init.len() implies (#[trigger] init[i]).end < (#[trigger] init[j]).start by {
                assert(init[i] == ws[i] && init[j] == ws[j]);
            }
        }
        let mid = w.start as int;
        assert forall|i: int| 0 <= i < init.len() implies a <= (#[trigger] init[i]).start && init[i].end <= mid by {
            assert(init[i] == ws[i]);
            assert(ws[i].end < ws[n].start);
        }
        lemma_count_canonical(init, a, mid);
        assert forall|t: int| a <= t < mid implies #[trigger] p(t) == q(t) by {
            if covers_at(ws, t) {
                let i = choose|i: int| 0 <= i < ws.len() && (#[trigger] ws[i]).has(t);
                if i < n {
                    assert(init[i] == ws[i]);
                }
            }
            if covers_at(init, t) {
                let i = choose|i: int| 0 <= i < init.len() && (#[trigger] init[i]).has(t);
                assert(init[i] == ws[i]);
            }
        }
        lemma_count_same(a, mid, p, q);
        assert forall|t: int| mid <= t < w.end implies #[trigger] p(t) by {
            assert(ws[n].has(t));
        }
        lemma_count_all(mid, w.end as int, p);
        assert forall|t: int| w.end <= t < b implies !#[trigger] p(t) by {
            if covers_at(ws, t) {
                let i = choose|i: int| 0 <= i < ws.len() && (#[trigger] ws[i]).has(t);
                if i < n {
                    assert(ws[i].end < ws[n].start);
                }
            }
        }
        lemma_count_none(w.end as int, b, p);
        lemma_count_split(a, mid, w.end as int, p);
        lemma_count_split(a, w.end as int, b, p);
    }
}

} // verus!
