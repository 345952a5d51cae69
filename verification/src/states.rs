//! Range queries: the open windows of a calendar over a range, and its
//! segmentation into state windows of constant capacity.
use vstd::prelude::*;
use crate::time::{Window, proper_window, valid_instant, core_instant, core_range, lemma_core_dates};
use crate::error::TimeGridError;
use crate::windows::{covers_at, canonical, within, subtract_into, merge};
use crate::rules::{any_rule_covers, expand_rules};
use crate::sort::SortKey;
use crate::calendar::{
    Calendar, Entry, wf, own_wf, composite, window_list_has, entry_kind_has, override_cap, entry_cap,
    valid_entry, valid_override, capacity_at, components_min,
};

verus! {

broadcast use vstd::seq_lib::group_seq_properties;

/// The own rules and windows of a calendar, expanded to windows, open the instant.
pub open spec fn win_opened(c: Calendar, t: int) -> bool {
    any_rule_covers(c.open_rules@, t) || window_list_has(c.open_windows@, t) || entry_kind_has(
        c.entries@,
        0,
        t,
    )
}

/// The own rules and windows of a calendar, expanded to windows, close the instant.
pub open spec fn win_closed(c: Calendar, t: int) -> bool {
    any_rule_covers(c.break_rules@, t) || window_list_has(c.closed_windows@, t)
        || entry_kind_has(c.entries@, 1, t)
}

/// Appends the parts of `source` inside `query`.
pub fn add_clipped_windows(source: &Vec<Window>, query: Window, result: &mut Vec<Window>)
    ensures
        forall|t: int| #[trigger] covers_at(final(result)@, t) <==> (covers_at(old(result)@, t) || (query.has(t)
            && window_list_has(source@, t))),
        forall|i: int| old(result)@.len() <= i < final(result)@.len() ==> query.start <= (#[trigger] final(result)@[i]).start
            && final(result)@[i].start < final(result)@[i].end && final(result)@[i].end <= query.end,
        final(result)@.len() >= old(result)@.len(),
        final(result)@.subrange(0, old(result)@.len() as int) == old(result)@,
{
    let mut k: usize = 0;
    let ghost base = result@;
    while k < source.len()
        invariant
            k <= source.len(),
            result@.len() >= base.len(),
            result@.subrange(0, base.len() as int) == base,
            forall|t: int| #[trigger] covers_at(result@, t) <==> (covers_at(base, t) || (query.has(t)
                && exists|j: int| 0 <= j < k && (#[trigger] source@[j]).has(t))),
            forall|i: int| base.len() <= i < result@.len() ==> query.start <= (#[trigger] result@[i]).start
                && result@[i].start < result@[i].end && result@[i].end <= query.end,
        decreases source.len() - k,
    {
        let ghost old_r = result@;
        if let Some(w) = source[k].intersect(query) {
            result.push(w);
        }
        proof {
            assert(result@.subrange(0, base.len() as int) =~= old_r.subrange(0, base.len() as int));
            assert forall|t: int| #[trigger] covers_at(result@, t) <==> (covers_at(base, t) || (query.has(t)
                && exists|j: int| 0 <= j < k + 1 && (#[trigger] source@[j]).has(t))) by {
                if covers_at(result@, t) {
                    let m = choose|m: int| 0 <= m < result@.len() && (#[trigger] result@[m]).has(t);
                    if m < old_r.len() {
                        assert(old_r[m] == result@[m]);
                        assert(covers_at(old_r, t));
                    } else {
                        assert(source@[k as int].has(t));
                    }
                }
                if covers_at(base, t) || (query.has(t) && exists|j: int| 0 <= j < k && (#[trigger] source@[j]).has(t)) {
                    assert(covers_at(old_r, t));
                    let m = choose|m: int| 0 <= m < old_r.len() && (#[trigger] old_r[m]).has(t);
                    assert(result@[m] == old_r[m]);
                } else if query.has(t) && source@[k as int].has(t) {
                    assert(result@[result@.len() - 1].has(t));
                }
            }
        }
        k = k + 1;
    }
    proof {
        assert forall|t: int| #[trigger] covers_at(result@, t) <==> (covers_at(base, t) || (query.has(t)
            && window_list_has(source@, t))) by {
            if window_list_has(source@, t) {
                let j = choose|j: int| 0 <= j < source@.len() && (#[trigger] source@[j]).has(t);
            }
        }
    }
}

/// Appends the parts of the entries of kind `kind` inside `query`.
pub fn add_entry_windows(entries: &Vec<Entry>, kind: u8, query: Window, result: &mut Vec<Window>)
    ensures
        forall|t: int| #[trigger] covers_at(final(result)@, t) <==> (covers_at(old(result)@, t) || (query.has(t)
            && entry_kind_has(entries@, kind, t))),
        forall|i: int| old(result)@.len() <= i < final(result)@.len() ==> query.start <= (#[trigger] final(result)@[i]).start
            && final(result)@[i].start < final(result)@[i].end && final(result)@[i].end <= query.end,
        final(result)@.len() >= old(result)@.len(),
        final(result)@.subrange(0, old(result)@.len() as int) == old(result)@,
{
    let mut k: usize = 0;
    let ghost base = result@;
    while k < entries.len()
        invariant
            k <= entries.len(),
            result@.len() >= base.len(),
            result@.subrange(0, base.len() as int) == base,
            forall|t: int| #[trigger] covers_at(result@, t) <==> (covers_at(base, t) || (query.has(t)
                && exists|j: int| 0 <= j < k && (#[trigger] entries@[j]).kind == kind && entries@[j].window.has(t))),
            forall|i: int| base.len() <= i < result@.len() ==> query.start <= (#[trigger] result@[i]).start
                && result@[i].start < result@[i].end && result@[i].end <= query.end,
        decreases entries.len() - k,
    {
        let ghost old_r = result@;
        if entries[k].kind == kind {
            if let Some(w) = entries[k].window.intersect(query) {
                result.push(w);
            }
        }
        proof {
            assert(result@.subrange(0, base.len() as int) =~= old_r.subrange(0, base.len() as int));
            assert forall|t: int| #[trigger] covers_at(result@, t) <==> (covers_at(base, t) || (query.has(t)
                && exists|j: int| 0 <= j < k + 1 && (#[trigger] entries@[j]).kind == kind && entries@[j].window.has(t))) by {
                if covers_at(result@, t) {
                    let m = choose|m: int| 0 <= m < result@.len() && (#[trigger] result@[m]).has(t);
                    if m < old_r.len() {
                        assert(old_r[m] == result@[m]);
                        assert(covers_at(old_r, t));
                    } else {
                        assert(entries@[k as int].window.has(t));
                    }
                }
                if covers_at(base, t) || (query.has(t) && exists|j: int| 0 <= j < k && (#[trigger] entries@[j]).kind == kind && entries@[j].window.has(t)) {
                    assert(covers_at(old_r, t));
                    let m = choose|m: int| 0 <= m < old_r.len() && (#[trigger] old_r[m]).has(t);
                    assert(result@[m] == old_r[m]);
                } else if query.has(t) && entries@[k as int].kind == kind && entries@[k as int].window.has(t) {
                    assert(result@[result@.len() - 1].has(t));
                }
            }
        }
        k = k + 1;
    }
    proof {
        assert forall|t: int| #[trigger] covers_at(result@, t) <==> (covers_at(base, t) || (query.has(t)
            && entry_kind_has(entries@, kind, t))) by {
            if entry_kind_has(entries@, kind, t) {
                let j = choose|j: int| 0 <= j < entries@.len() && (#[trigger] entries@[j]).kind == kind && entries@[j].window.has(t);
            }
        }
    }
}

/// The parts of `window` outside every window of `closed`.
pub fn subtract_all(window: Window, closed: &Vec<Window>) -> (parts: Vec<Window>)
    requires
        window.start < window.end,
    ensures
        forall|t: int| #[trigger] covers_at(parts@, t) <==> (window.has(t) && !covers_at(closed@, t)),
        forall|i: int| 0 <= i < parts.len() ==> window.start <= (#[trigger] parts@[i]).start && parts@[i].start < parts@[i].end && parts@[i].end <= window.end,
{
    let mut parts: Vec<Window> = Vec::new();
    parts.push(window);
    let mut j: usize = 0;
    proof {
        assert forall|t: int| #[trigger] covers_at(parts@, t) <==> (window.has(t) && !exists|m: int| 0 <= m < 0 && (#[trigger] closed@[m]).has(t)) by {
            if window.has(t) {
                assert(parts@[0].has(t));
            }
        }
    }
    while j < closed.len()
        invariant
            j <= closed.len(),
            forall|t: int| #[trigger] covers_at(parts@, t) <==> (window.has(t) && !exists|m: int| 0 <= m < j && (#[trigger] closed@[m]).has(t)),
            forall|i: int| 0 <= i < parts.len() ==> window.start <= (#[trigger] parts@[i]).start && parts@[i].start < parts@[i].end && parts@[i].end <= window.end,
        decreases closed.len() - j,
    {
        let c = closed[j];
        let mut next: Vec<Window> = Vec::new();
        let mut p: usize = 0;
        while p < parts.len()
            invariant
                p <= parts.len(),
                forall|i: int| 0 <= i < parts.len() ==> window.start <= (#[trigger] parts@[i]).start && parts@[i].start < parts@[i].end && parts@[i].end <= window.end,
                forall|t: int| #[trigger] covers_at(next@, t) <==> (exists|i: int| 0 <= i < p && (#[trigger] parts@[i]).has(t) && !c.has(t)),
                forall|i: int| 0 <= i < next.len() ==> window.start <= (#[trigger] next@[i]).start && next@[i].start < next@[i].end && next@[i].end <= window.end,
            decreases parts.len() - p,
        {
            let ghost old_next = next@;
            let part = parts[p];
            subtract_into(part, c, &mut next);
            proof {
                let added = next@.subrange(old_next.len() as int, next@.len() as int);
                assert forall|t: int| #[trigger] covers_at(next@, t) <==> (exists|i: int| 0 <= i < p + 1 && (#[trigger] parts@[i]).has(t) && !c.has(t)) by {
                    if covers_at(next@, t) {
                        let m = choose|m: int| 0 <= m < next@.len() && (#[trigger] next@[m]).has(t);
                        if m < old_next.len() {
                            assert(next@.subrange(0, old_next.len() as int)[m] == next@[m]);
                            assert(old_next[m] == next@[m]);
                            assert(covers_at(old_next, t));
                        } else {
                            assert(added[m - old_next.len()] == next@[m]);
                            assert(covers_at(added, t));
                            assert(parts@[p as int].has(t));
                        }
                    }
                    if exists|i: int| 0 <= i < p + 1 && (#[trigger] parts@[i]).has(t) && !c.has(t) {
                        let i = choose|i: int| 0 <= i < p + 1 && (#[trigger] parts@[i]).has(t) && !c.has(t);
                        if i < p {
                            assert(covers_at(old_next, t));
                            let m = choose|m: int| 0 <= m < old_next.len() && (#[trigger] old_next[m]).has(t);
                            assert(next@.subrange(0, old_next.len() as int)[m] == next@[m]);
                        } else {
                            assert(covers_at(added, t));
                            let m = choose|m: int| 0 <= m < added.len() && (#[trigger] added[m]).has(t);
                            assert(added[m] == next@[old_next.len() + m]);
                        }
                    }
                }
                assert forall|i: int| 0 <= i < next.len() implies window.start <= (#[trigger] next@[i]).start && next@[i].start < next@[i].end && next@[i].end <= window.end by {
                    if i < old_next.len() {
                        assert(next@.subrange(0, old_next.len() as int)[i] == next@[i]);
                    }
                }
            }
            p = p + 1;
        }
        proof {
            assert forall|t: int| #[trigger] covers_at(next@, t) <==> (window.has(t) && !exists|m: int| 0 <= m < j + 1 && (#[trigger] closed@[m]).has(t)) by {
                if covers_at(next@, t) {
                    let i = choose|i: int| 0 <= i < p && (#[trigger] parts@[i]).has(t) && !c.has(t);
                    assert(covers_at(parts@, t));
                }
                if window.has(t) && !exists|m: int| 0 <= m < j + 1 && (#[trigger] closed@[m]).has(t) {
                    assert(!c.has(t));
                    assert(covers_at(parts@, t));
                    let i = choose|i: int| 0 <= i < parts@.len() && (#[trigger] parts@[i]).has(t);
                }
            }
        }
        parts = next;
        j = j + 1;
        if parts.len() == 0 {
            proof {
                assert forall|t: int| #[trigger] covers_at(parts@, t) <==> (window.has(t) && !covers_at(closed@, t)) by {
                    if window.has(t) && !covers_at(closed@, t) {
                        assert(!exists|m: int| 0 <= m < j && (#[trigger] closed@[m]).has(t));
                    }
                }
            }
            return parts;
        }
    }
    proof {
        assert forall|t: int| #[trigger] covers_at(parts@, t) <==> (window.has(t) && !covers_at(closed@, t)) by {
            if covers_at(closed@, t) {
                let m = choose|m: int| 0 <= m < closed@.len() && (#[trigger] closed@[m]).has(t);
            }
        }
    }
    parts
}

/// Clips every window of the list to `query`.
fn clip_all(windows: Vec<Window>, query: Window) -> (r: Vec<Window>)
    ensures
        forall|t: int| #[trigger] covers_at(r@, t) <==> (query.has(t) && covers_at(windows@, t)),
        forall|i: int| 0 <= i < r.len() ==> query.start <= (#[trigger] r@[i]).start && r@[i].start < r@[i].end && r@[i].end <= query.end,
{
    let mut r: Vec<Window> = Vec::new();
    add_clipped_windows(&windows, query, &mut r);
    proof {
        assert forall|t: int| #[trigger] covers_at(r@, t) <==> (query.has(t) && covers_at(windows@, t)) by {
            assert(!covers_at(Seq::<Window>::empty(), t));
            if covers_at(windows@, t) {
                let j = choose|j: int| 0 <= j < windows@.len() && (#[trigger] windows@[j]).has(t);
                assert(window_list_has(windows@, t));
            }
            if window_list_has(windows@, t) {
                let j = choose|j: int| 0 <= j < windows@.len() && (#[trigger] windows@[j]).has(t);
                assert(covers_at(windows@, t));
            }
        }
    }
    r
}

impl Calendar {
    /// The instants of `query` that the calendar's own rules and windows open,
    /// in canonical form.
    pub fn own_calendar_windows(&self, query: Window) -> (r: Vec<Window>)
        requires
            own_wf(*self),
            proper_window(query),
        ensures
            canonical(r@),
            within(r@, query),
            forall|t: int| #[trigger] covers_at(r@, t) <==> (query.has(t) && win_opened(*self, t) && !win_closed(*self, t)),
    {
        let mut open_windows = expand_rules(&self.open_rules, query);
        let ghost stage1 = open_windows@;
        add_clipped_windows(&self.open_windows, query, &mut open_windows);
        let ghost stage2 = open_windows@;
        add_entry_windows(&self.entries, 0, query, &mut open_windows);
        proof {
            assert forall|i: int| 0 <= i < open_windows.len() implies query.start <= (#[trigger] open_windows@[i]).start && open_windows@[i].start < open_windows@[i].end && open_windows@[i].end <= query.end by {
                if i < stage2.len() {
                    assert(open_windows@.subrange(0, stage2.len() as int)[i] == open_windows@[i]);
                    assert(stage2[i] == open_windows@[i]);
                    if i < stage1.len() {
                        assert(stage2.subrange(0, stage1.len() as int)[i] == stage2[i]);
                        assert(stage1[i] == stage2[i]);
                    }
                }
            }
        }

        let mut closed_windows = expand_rules(&self.break_rules, query);
        add_clipped_windows(&self.closed_windows, query, &mut closed_windows);
        add_entry_windows(&self.entries, 1, query, &mut closed_windows);
        let clipped = clip_all(closed_windows, query);
        let clipped_closed = crate::sort::sort_by_key(clipped);
        proof {
            crate::windows::lemma_multiset_same_instants(clipped_closed@, clipped@);
        }

        let mut available: Vec<Window> = Vec::new();
        let mut k: usize = 0;
        while k < open_windows.len()
            invariant
                k <= open_windows.len(),
                forall|i: int| 0 <= i < open_windows.len() ==> query.start <= (#[trigger] open_windows@[i]).start && open_windows@[i].start < open_windows@[i].end && open_windows@[i].end <= query.end,
                forall|t: int| #[trigger] covers_at(available@, t) <==> (exists|i: int| 0 <= i < k && (#[trigger] open_windows@[i]).has(t)) && !covers_at(clipped_closed@, t),
                forall|i: int| 0 <= i < available.len() ==> query.start <= (#[trigger] available@[i]).start && available@[i].end <= query.end,
            decreases open_windows.len() - k,
        {
            let parts = subtract_all(open_windows[k], &clipped_closed);
            let ghost old_a = available@;
            let mut p: usize = 0;
            while p < parts.len()
                invariant
                    p <= parts.len(),
                    available@.len() == old_a.len() + p,
                    forall|i: int| 0 <= i < old_a.len() ==> available@[i] == old_a[i],
                    forall|i: int| 0 <= i < p ==> available@[old_a.len() + i] == parts@[i],
                    forall|i: int| 0 <= i < parts.len() ==> query.start <= (#[trigger] parts@[i]).start && parts@[i].end <= query.end,
                    forall|i: int| 0 <= i < available.len() ==> query.start <= (#[trigger] available@[i]).start && available@[i].end <= query.end,
                decreases parts.len() - p,
            {
                available.push(parts[p]);
                p = p + 1;
            }
            proof {
                assert forall|t: int| #[trigger] covers_at(available@, t) <==> (exists|i: int| 0 <= i < k + 1 && (#[trigger] open_windows@[i]).has(t)) && !covers_at(clipped_closed@, t) by {
                    if covers_at(available@, t) {
                        let m = choose|m: int| 0 <= m < available@.len() && (#[trigger] available@[m]).has(t);
                        if m < old_a.len() {
                            assert(available@[m] == old_a[m]);
                            assert(covers_at(old_a, t));
                        } else {
                            assert(parts@[m - old_a.len()] == available@[m]);
                            assert(covers_at(parts@, t));
                        }
                    }
                    if (exists|i: int| 0 <= i < k + 1 && (#[trigger] open_windows@[i]).has(t)) && !covers_at(clipped_closed@, t) {
                        if exists|i: int| 0 <= i < k && (#[trigger] open_windows@[i]).has(t) {
                            assert(covers_at(old_a, t));
                            let m = choose|m: int| 0 <= m < old_a.len() && (#[trigger] old_a[m]).has(t);
                            assert(available@[m] == old_a[m]);
                        } else {
                            assert(open_windows@[k as int].has(t));
                            assert(covers_at(parts@, t));
                            let m = choose|m: int| 0 <= m < parts@.len() && (#[trigger] parts@[m]).has(t);
                            assert(available@[old_a.len() + m] == parts@[m]);
                        }
                    }
                }
            }
            k = k + 1;
        }
        let merged = merge(available);
        proof {
            assert forall|t: int| #[trigger] covers_at(merged@, t) <==> (query.has(t) && win_opened(*self, t) && !win_closed(*self, t)) by {
                assert(covers_at(merged@, t) == covers_at(available@, t));
                assert(!covers_at(Seq::<Window>::empty(), t));
                if exists|i: int| 0 <= i < open_windows@.len() && (#[trigger] open_windows@[i]).has(t) {
                    let i = choose|i: int| 0 <= i < open_windows@.len() && (#[trigger] open_windows@[i]).has(t);
                    assert(covers_at(open_windows@, t));
                }
                if covers_at(open_windows@, t) {
                    let i = choose|i: int| 0 <= i < open_windows@.len() && (#[trigger] open_windows@[i]).has(t);
                }
            }
            assert forall|i: int| 0 <= i < merged.len() implies query.start <= (#[trigger] merged@[i]).start && merged@[i].end <= query.end by {
                let a = choose|j: int| 0 <= j < available.len() && (#[trigger] available@[j]).start == merged@[i].start;
                let b = choose|j: int| 0 <= j < available.len() && (#[trigger] available@[j]).end == merged@[i].end;
            }
        }
        merged
    }
}

/// The calendar's windows open the instant: its own rules and windows, or,
/// for an intersection, those of every component.
pub open spec fn win_open(c: Calendar, t: int) -> bool
    decreases c,
{
    if c.components@.len() > 0 {
        forall|i: int| 0 <= i < c.components@.len() ==> win_open(#[trigger] c.components@[i], t)
    } else {
        win_opened(c, t) && !win_closed(c, t)
    }
}

impl Calendar {
    /// The instants of `query` that the calendar's windows open, in canonical form.
    pub fn calendar_windows(&self, query: Window) -> (r: Vec<Window>)
        requires
            wf(*self),
            proper_window(query),
        ensures
            canonical(r@),
            forall|t: int| #[trigger] covers_at(r@, t) <==> (query.has(t) && win_open(*self, t)),
        decreases self, 1int,
    {
        if self.is_composite() {
            return self.composite_calendar_windows(query);
        }
        self.own_calendar_windows(query)
    }

    /// The instants of `query` that every component's windows open, in canonical form.
    fn composite_calendar_windows(&self, query: Window) -> (r: Vec<Window>)
        requires
            wf(*self),
            composite(*self),
            proper_window(query),
        ensures
            canonical(r@),
            forall|t: int| #[trigger] covers_at(r@, t) <==> (query.has(t) && win_open(*self, t)),
        decreases self, 0int,
    {
        proof {
            assert(decreases_to!(self => self.components));
            assert(decreases_to!(self.components => self.components@));
            assert(decreases_to!(self.components@ => self.components@[0]));
            assert(wf(self.components@[0]));
        }
        let mut windows = self.components[0].calendar_windows(query);
        let mut i: usize = 1;
        while i < self.components.len()
            invariant
                wf(*self),
                composite(*self),
                proper_window(query),
                1 <= i <= self.components@.len(),
                canonical(windows@),
                forall|t: int| #[trigger] covers_at(windows@, t) <==> (query.has(t) && forall|k: int| 0 <= k < i ==> win_open(
                    #[trigger] self.components@[k],
                    t,
                )),
            ensures
                canonical(windows@),
                forall|t: int| #[trigger] covers_at(windows@, t) <==> (query.has(t) && forall|k: int| 0 <= k < self.components@.len() ==> win_open(
                    #[trigger] self.components@[k],
                    t,
                )),
            decreases self.components@.len() - i,
        {
            if windows.len() == 0 {
                proof {
                    assert forall|t: int| !(query.has(t) && forall|k: int| 0 <= k < self.components@.len() ==> win_open(
                        #[trigger] self.components@[k],
                        t,
                    )) by {
                        if query.has(t) && forall|k: int| 0 <= k < self.components@.len() ==> win_open(
                            #[trigger] self.components@[k],
                            t,
                        ) {
                            assert(!covers_at(windows@, t));
                            let k = choose|k: int| 0 <= k < i && !win_open(#[trigger] self.components@[k], t);
                        }
                    }
                }
                break;
            }
            proof {
                assert(decreases_to!(self => self.components));
                assert(decreases_to!(self.components => self.components@));
                assert(decreases_to!(self.components@ => self.components@[i as int]));
                assert(wf(self.components@[i as int]));
            }
            let next = self.components[i].calendar_windows(query);
            windows = crate::windows::intersect_windows(&windows, &next);
            proof {
                assert forall|t: int| #[trigger] covers_at(windows@, t) <==> (query.has(t) && forall|k: int| 0 <= k < i + 1 ==> win_open(
                    #[trigger] self.components@[k],
                    t,
                )) by {
                    if query.has(t) && forall|k: int| 0 <= k < i ==> win_open(#[trigger] self.components@[k], t) {
                        if win_open(self.components@[i as int], t) {
                            assert forall|k: int| 0 <= k < i + 1 implies win_open(#[trigger] self.components@[k], t) by {}
                        }
                    }
                }
            }
            i = i + 1;
        }
        windows
    }
}

/// A clipped capacity override or capacity entry, with its position in the list.
#[derive(Clone, Copy, Debug, PartialEq, Eq, Structural)]
pub struct CapacitySource {
    pub window: Window,
    pub capacity: i32,
    pub order: usize,
}

/// A window of constant capacity.
#[derive(Clone, Copy, Debug, PartialEq, Eq, Structural)]
pub struct StateWindow {
    pub window: Window,
    pub capacity: i32,
}

impl StateWindow {
    /// The window allows work.
    pub fn can_work(self) -> (b: bool)
        ensures
            b == (self.capacity > 0),
    {
        self.capacity > 0
    }
}

/// The capacity of the last source holding `t`, or `init`.
pub open spec fn source_cap(srcs: Seq<CapacitySource>, t: int, init: int) -> int
    decreases srcs.len(),
{
    if srcs.len() == 0 {
        init
    } else if srcs.last().window.has(t) {
        srcs.last().capacity as int
    } else {
        source_cap(srcs.drop_last(), t, init)
    }
}

/// Sources that agree on two instants give them the same capacity.
pub proof fn lemma_source_cap_same(srcs: Seq<CapacitySource>, a: int, b: int, init: int)
    requires
        forall|i: int| 0 <= i < srcs.len() ==> (#[trigger] srcs[i]).window.has(a) == srcs[i].window.has(b),
    ensures
        source_cap(srcs, a, init) == source_cap(srcs, b, init),
    decreases srcs.len(),
{
    if srcs.len() > 0 {
        assert(srcs.last() == srcs[srcs.len() - 1]);
        lemma_source_cap_same(srcs.drop_last(), a, b, init);
    }
}

/// The capacity of the calendar's own windows at `t`: zero unless its expanded
/// rules and windows open `t`, else that of the last capacity entry, override, or the default.
pub open spec fn win_capacity(c: Calendar, t: int) -> int {
    if win_opened(c, t) && !win_closed(c, t) {
        entry_cap(c.entries@, t, override_cap(c.capacity_overrides@, t, c.default_capacity as int))
    } else {
        0
    }
}

/// The capacity that the state windows of a query starting at `a` give `t`:
/// the expanded windows' capacity for a calendar without components; for a
/// composite one, its capacity at the last cut at or before `t`.
pub open spec fn query_value(c: Calendar, a: int, t: int) -> int
    decreases c, 1int, 0int,
{
    if c.components@.len() > 0 {
        capacity_at(c, last_cut(c, a, t))
    } else {
        win_capacity(c, t)
    }
}

/// Some component's state value changes at `t`.
pub open spec fn cut_at(c: Calendar, a: int, t: int) -> bool
    decreases c, 0int, 0int,
{
    exists|k: int|
        0 <= k < c.components@.len() && query_value(#[trigger] c.components@[k], a, t - 1) != query_value(
            c.components@[k],
            a,
            t,
        )
}

/// The last instant in `[a, t]` that is `a` or a cut.
pub open spec fn last_cut(c: Calendar, a: int, t: int) -> int
    decreases c, 0int, t - a,
{
    if t <= a {
        a
    } else if cut_at(c, a, t) {
        t
    } else {
        last_cut(c, a, t - 1)
    }
}

/// `p` is the last cut at or before `t` when it is `a` or a cut and nothing
/// after it up to `t` is.
pub proof fn lemma_last_cut(c: Calendar, a: int, p: int, t: int)
    requires
        a <= p <= t,
        p == a || cut_at(c, a, p),
        forall|x: int| p < x <= t ==> !#[trigger] cut_at(c, a, x),
    ensures
        last_cut(c, a, t) == p,
    decreases t - p,
{
    if t > p {
        assert(!cut_at(c, a, t));
        lemma_last_cut(c, a, p, t - 1);
    }
}

/// The capacity sources of the calendar inside `query`: its overrides, then its
/// capacity entries, each clipped to the query, the empty ones dropped.
pub fn capacity_sources(c: &Calendar, query: Window) -> (r: Vec<CapacitySource>)
    requires
        own_wf(*c),
    ensures
        forall|t: int, init: int| query.has(t) ==> #[trigger] source_cap(r@, t, init) == entry_cap(
            c.entries@,
            t,
            override_cap(c.capacity_overrides@, t, init),
        ),
        forall|i: int| 0 <= i < r.len() ==> (#[trigger] r@[i]).order == i && query.start <= r@[i].window.start
            && r@[i].window.start < r@[i].window.end && r@[i].window.end <= query.end && r@[i].capacity >= 0,
{
    let mut result: Vec<CapacitySource> = Vec::new();
    let mut k: usize = 0;
    while k < c.capacity_overrides.len()
        invariant
            own_wf(*c),
            k <= c.capacity_overrides@.len(),
            forall|t: int, init: int| query.has(t) ==> #[trigger] source_cap(result@, t, init) == override_cap(
                c.capacity_overrides@.take(k as int),
                t,
                init,
            ),
            forall|i: int| 0 <= i < result.len() ==> (#[trigger] result@[i]).order == i && query.start <= result@[i].window.start
                && result@[i].window.start < result@[i].window.end && result@[i].window.end <= query.end && result@[i].capacity >= 0,
        decreases c.capacity_overrides@.len() - k,
    {
        let source = c.capacity_overrides[k];
        let ghost old_r = result@;
        proof {
            assert(valid_override(c.capacity_overrides@[k as int]));
        }
        if let Some(window) = source.window.intersect(query) {
            let order = result.len();
            result.push(CapacitySource { window, capacity: source.capacity, order });
        }
        proof {
            let pre = c.capacity_overrides@.take(k as int);
            let post = c.capacity_overrides@.take(k + 1);
            assert(post.drop_last() =~= pre);
            assert(post.last() == source);
            if result@.len() > old_r.len() {
                assert(result@.drop_last() =~= old_r);
            }
            assert forall|t: int, init: int| query.has(t) implies #[trigger] source_cap(result@, t, init)
                == override_cap(post, t, init) by {
                assert(source_cap(old_r, t, init) == override_cap(pre, t, init));
            }
        }
        k = k + 1;
    }
    proof {
        assert(c.capacity_overrides@.take(c.capacity_overrides@.len() as int) =~= c.capacity_overrides@);
    }
    let mut e: usize = 0;
    while e < c.entries.len()
        invariant
            own_wf(*c),
            e <= c.entries@.len(),
            forall|t: int, init: int| query.has(t) ==> #[trigger] source_cap(result@, t, init) == entry_cap(
                c.entries@.take(e as int),
                t,
                override_cap(c.capacity_overrides@, t, init),
            ),
            forall|i: int| 0 <= i < result.len() ==> (#[trigger] result@[i]).order == i && query.start <= result@[i].window.start
                && result@[i].window.start < result@[i].window.end && result@[i].window.end <= query.end && result@[i].capacity >= 0,
        decreases c.entries@.len() - e,
    {
        let ghost old_r = result@;
        proof {
            assert(valid_entry(c.entries@[e as int]));
        }
        if c.entries[e].kind == 2 {
            if let Some(window) = c.entries[e].window.intersect(query) {
                let order = result.len();
                result.push(CapacitySource { window, capacity: c.entries[e].capacity, order });
            }
        }
        proof {
            let pre = c.entries@.take(e as int);
            let post = c.entries@.take(e + 1);
            assert(post.drop_last() =~= pre);
            assert(post.last() == c.entries@[e as int]);
            if result@.len() > old_r.len() {
                assert(result@.drop_last() =~= old_r);
            }
            assert forall|t: int, init: int| query.has(t) implies #[trigger] source_cap(result@, t, init)
                == entry_cap(post, t, override_cap(c.capacity_overrides@, t, init)) by {
                assert(source_cap(old_r, t, init) == entry_cap(pre, t, override_cap(c.capacity_overrides@, t, init)));
            }
        }
        e = e + 1;
    }
    proof {
        assert(c.entries@.take(c.entries@.len() as int) =~= c.entries@);
    }
    result
}

/// The capacity of the last source holding `t`, or `default`.
pub fn source_capacity_at(sources: &Vec<CapacitySource>, t: i64, default: i32) -> (c: i32)
    ensures
        c == source_cap(sources@, t as int, default as int),
{
    let mut capacity = default;
    let mut i: usize = 0;
    while i < sources.len()
        invariant
            i <= sources.len(),
            capacity == source_cap(sources@.take(i as int), t as int, default as int),
        decreases sources.len() - i,
    {
        proof {
            assert(sources@.take(i + 1).drop_last() =~= sources@.take(i as int));
        }
        if sources[i].window.contains(t) {
            capacity = sources[i].capacity;
        }
        i = i + 1;
    }
    proof {
        assert(sources@.take(sources@.len() as int) =~= sources@);
    }
    capacity
}

/// `s` cuts `[start, end)` into consecutive non-empty windows, neighbours
/// differing in capacity.
pub open spec fn segmentation(s: Seq<StateWindow>, start: int, end: int) -> bool {
    &&& (start < end <==> s.len() > 0)
    &&& s.len() > 0 ==> s[0].window.start == start && s.last().window.end == end
    &&& forall|i: int| 0 <= i < s.len() ==> (#[trigger] s[i]).window.start < s[i].window.end
    &&& forall|i: int| 0 <= i < s.len() ==> start <= (#[trigger] s[i]).window.start && s[i].window.end <= end
    &&& forall|i: int| 0 <= i < s.len() - 1 ==> (#[trigger] s[i]).window.end == s[i + 1].window.start
    &&& forall|i: int| 0 <= i < s.len() - 1 ==> (#[trigger] s[i]).capacity != s[i + 1].capacity
}

/// In a segmentation, an earlier window ends no later than a later one starts.
pub proof fn lemma_segmentation_chain(s: Seq<StateWindow>, start: int, end: int, i: int, j: int)
    requires
        segmentation(s, start, end),
        0 <= i < j < s.len(),
    ensures
        s[i].window.end <= s[j].window.start,
    decreases j - i,
{
    if j > i + 1 {
        lemma_segmentation_chain(s, start, end, i, j - 1);
        assert(s[j - 1].window.end == s[j].window.start);
    } else {
        assert(s[i].window.end == s[i + 1].window.start);
    }
}

/// Dropping the last window of a segmentation leaves a segmentation of the
/// range up to that window's start.
pub proof fn lemma_segmentation_prefix(s: Seq<StateWindow>, start: int, end: int)
    requires
        segmentation(s, start, end),
        s.len() >= 2,
    ensures
        segmentation(s.drop_last(), start, s[s.len() - 2].window.end as int),
        s[s.len() - 2].window.end == s[s.len() - 1].window.start,
{
    let p = s.drop_last();
    let n = s.len() - 1;
    assert(p[0] == s[0]);
    assert(p.last() == s[n - 1]);
    assert forall|i: int| 0 <= i < p.len() implies (#[trigger] p[i]).window.start < p[i].window.end by {
        assert(p[i] == s[i]);
    }
    assert forall|i: int| 0 <= i < p.len() implies start <= (#[trigger] p[i]).window.start && p[i].window.end <= s[n - 1].window.end by {
        assert(p[i] == s[i]);
        if i < n - 1 {
            lemma_segmentation_chain(s, start, end, i, n - 1);
        }
    }
    assert forall|i: int| 0 <= i < p.len() - 1 implies (#[trigger] p[i]).window.end == p[i + 1].window.start by {
        assert(p[i] == s[i] && p[i + 1] == s[i + 1]);
    }
    assert forall|i: int| 0 <= i < p.len() - 1 implies (#[trigger] p[i]).capacity != p[i + 1].capacity by {
        assert(p[i] == s[i] && p[i + 1] == s[i + 1]);
    }
    assert(s[n - 1].window.start < s[n - 1].window.end);
}

/// Each window of a segmentation lies inside the segmented range, in order.
pub proof fn lemma_segmentation_order(s: Seq<StateWindow>, start: int, end: int)
    requires
        segmentation(s, start, end),
    ensures
        forall|i: int, j: int| 0 <= i < j < s.len() ==> (#[trigger] s[i]).window.end <= (#[trigger] s[j]).window.start,
{
    assert forall|i: int, j: int| 0 <= i < j < s.len() implies (#[trigger] s[i]).window.end <= (#[trigger] s[j]).window.start by {
        lemma_segmentation_chain(s, start, end, i, j);
    }
}

/// Every instant of the range lies in exactly one window of a segmentation.
pub proof fn lemma_segmentation_covers(s: Seq<StateWindow>, start: int, end: int, t: int)
    requires
        segmentation(s, start, end),
        start <= t < end,
    ensures
        exists|i: int| 0 <= i < s.len() && (#[trigger] s[i]).window.has(t),
    decreases s.len(),
{
    let n = s.len() - 1;
    if t >= s[n].window.start {
        assert(s[n].window.has(t));
    } else {
        let p = s.drop_last();
        assert(n > 0);
        lemma_segmentation_prefix(s, start, end);
        lemma_segmentation_covers(p, start, s[n - 1].window.end as int, t);
        let i = choose|i: int| 0 <= i < p.len() && (#[trigger] p[i]).window.has(t);
        assert(s[i] == p[i]);
    }
}

/// The state windows after appending `next`: an empty window is dropped, and a
/// window continuing the last one with the same capacity extends it.
pub open spec fn appended_state(s: Seq<StateWindow>, next: StateWindow) -> Seq<StateWindow> {
    if next.window.end <= next.window.start {
        s
    } else if s.len() > 0 && s.last().capacity == next.capacity && s.last().window.end
        == next.window.start {
        s.drop_last().push(
            StateWindow {
                window: Window { start: s.last().window.start, end: next.window.end },
                capacity: next.capacity,
            },
        )
    } else {
        s.push(next)
    }
}

/// Appends `next`, extending the last window when it continues it with the same capacity.
pub fn add_state_window(result: &mut Vec<StateWindow>, next: StateWindow)
    ensures
        final(result)@ == appended_state(old(result)@, next),
{
    if next.window.is_empty() {
        return;
    }
    let n = result.len();
    if n > 0 {
        let previous = result[n - 1];
        if previous.capacity == next.capacity && previous.window.end == next.window.start {
            result.set(
                n - 1,
                StateWindow {
                    window: Window { start: previous.window.start, end: next.window.end },
                    capacity: next.capacity,
                },
            );
            proof {
                assert(final(result)@ =~= appended_state(old(result)@, next));
            }
            return;
        }
    }
    result.push(next);
}

/// Each window of `s` has the capacity the calendar has at the window's start.
pub open spec fn starts_match(s: Seq<StateWindow>, c: Calendar) -> bool {
    forall|i: int| 0 <= i < s.len() ==> (#[trigger] s[i]).capacity == capacity_at(c, s[i].window.start as int)
}

/// Appending a window whose capacity is the calendar's at its start keeps
/// every window's capacity the calendar's at its start.
pub proof fn lemma_append_starts(s: Seq<StateWindow>, next: StateWindow, c: Calendar)
    requires
        starts_match(s, c),
        next.capacity == capacity_at(c, next.window.start as int),
    ensures
        starts_match(appended_state(s, next), c),
{
    let r = appended_state(s, next);
    assert forall|i: int| 0 <= i < r.len() implies (#[trigger] r[i]).capacity == capacity_at(c, r[i].window.start as int) by {
        if next.window.end <= next.window.start {
        } else if s.len() > 0 && s.last().capacity == next.capacity && s.last().window.end == next.window.start {
            if i < s.len() - 1 {
                assert(r[i] == s[i]);
            } else {
                assert(s[s.len() - 1].capacity == capacity_at(c, s[s.len() - 1].window.start as int));
            }
        } else {
            if i < s.len() {
                assert(r[i] == s[i]);
            }
        }
    }
}

/// Each window of `s` has, at each of its instants, the capacity `f` gives there.
pub open spec fn values_match(s: Seq<StateWindow>, f: spec_fn(int) -> int) -> bool {
    forall|i: int, t: int| 0 <= i < s.len() && #[trigger] s[i].window.has(t) ==> s[i].capacity == f(t)
}

/// Appending the next consecutive window keeps a segmentation, and keeps each
/// window's capacity equal to `f` on it.
pub proof fn lemma_append_state(
    s: Seq<StateWindow>,
    start: int,
    prev: i64,
    cur: i64,
    c: i32,
    f: spec_fn(int) -> int,
)
    requires
        segmentation(s, start, prev as int),
        start <= prev < cur,
        values_match(s, f),
        forall|t: int| prev <= t < cur ==> #[trigger] f(t) == c,
    ensures
        segmentation(
            appended_state(s, StateWindow { window: Window { start: prev, end: cur }, capacity: c }),
            start,
            cur as int,
        ),
        values_match(
            appended_state(s, StateWindow { window: Window { start: prev, end: cur }, capacity: c }),
            f,
        ),
{
    let next = StateWindow { window: Window { start: prev, end: cur }, capacity: c };
    let r = appended_state(s, next);
    let n = s.len();
    if n > 0 && s.last().capacity == c && s.last().window.end == prev as int {
        assert(r.len() == n);
        assert forall|i: int| 0 <= i < r.len() - 1 implies (#[trigger] r[i]).window.end == r[i + 1].window.start by {
            assert(r[i] == s[i]);
            if i + 1 < n - 1 {
                assert(r[i + 1] == s[i + 1]);
            }
        }
        assert forall|i: int| 0 <= i < r.len() - 1 implies (#[trigger] r[i]).capacity != r[i + 1].capacity by {
            assert(r[i] == s[i]);
            if i + 1 < n - 1 {
                assert(r[i + 1] == s[i + 1]);
            }
        }
        assert forall|i: int| 0 <= i < r.len() implies (#[trigger] r[i]).window.start < r[i].window.end by {
            if i < n - 1 {
                assert(r[i] == s[i]);
            }
        }
        if n > 1 {
            assert(r[0] == s[0]);
        }
        assert forall|i: int, t: int| 0 <= i < r.len() && #[trigger] r[i].window.has(t) implies r[i].capacity == f(t) by {
            if i < n - 1 {
                assert(r[i] == s[i]);
            } else if t < prev as int {
                assert(s[n - 1].window.has(t));
            }
        }
    } else {
        assert(r == s.push(next));
        if n > 0 {
            assert(s[n - 1].window.end == prev as int);
        }
        assert forall|i: int| 0 <= i < r.len() - 1 implies (#[trigger] r[i]).window.end == r[i + 1].window.start by {
            assert(r[i] == s[i]);
            if i + 1 < n {
                assert(r[i + 1] == s[i + 1]);
            }
        }
        assert forall|i: int| 0 <= i < r.len() - 1 implies (#[trigger] r[i]).capacity != r[i + 1].capacity by {
            assert(r[i] == s[i]);
            if i + 1 < n {
                assert(r[i + 1] == s[i + 1]);
            }
        }
        assert forall|i: int| 0 <= i < r.len() implies (#[trigger] r[i]).window.start < r[i].window.end by {
            if i < n {
                assert(r[i] == s[i]);
            }
        }
        if n > 0 {
            assert(r[0] == s[0]);
        }
        assert forall|i: int, t: int| 0 <= i < r.len() && #[trigger] r[i].window.has(t) implies r[i].capacity == f(t) by {
            if i < n {
                assert(r[i] == s[i]);
            }
        }
    }
}

/// Appending the next consecutive window keeps a segmentation.
pub proof fn lemma_append_segmentation(
    s: Seq<StateWindow>,
    start: int,
    prev: i64,
    cur: i64,
    c: i32,
)
    requires
        segmentation(s, start, prev as int),
        start <= prev < cur,

    ensures
        segmentation(
            appended_state(s, StateWindow { window: Window { start: prev, end: cur }, capacity: c }),
            start,
            cur as int,
        ),
{
    let next = StateWindow { window: Window { start: prev, end: cur }, capacity: c };
    let r = appended_state(s, next);
    let n = s.len();
    if n > 0 && s.last().capacity == c && s.last().window.end == prev as int {
        assert(r.len() == n);
        assert forall|i: int| 0 <= i < r.len() - 1 implies (#[trigger] r[i]).window.end == r[i + 1].window.start by {
            assert(r[i] == s[i]);
            if i + 1 < n - 1 {
                assert(r[i + 1] == s[i + 1]);
            }
        }
        assert forall|i: int| 0 <= i < r.len() - 1 implies (#[trigger] r[i]).capacity != r[i + 1].capacity by {
            assert(r[i] == s[i]);
            if i + 1 < n - 1 {
                assert(r[i + 1] == s[i + 1]);
            }
        }
        assert forall|i: int| 0 <= i < r.len() implies (#[trigger] r[i]).window.start < r[i].window.end by {
            if i < n - 1 {
                assert(r[i] == s[i]);
            }
        }
        if n > 1 {
            assert(r[0] == s[0]);
        }
    } else {
        assert(r == s.push(next));
        if n > 0 {
            assert(s[n - 1].window.end == prev as int);
        }
        assert forall|i: int| 0 <= i < r.len() - 1 implies (#[trigger] r[i]).window.end == r[i + 1].window.start by {
            assert(r[i] == s[i]);
            if i + 1 < n {
                assert(r[i + 1] == s[i + 1]);
            }
        }
        assert forall|i: int| 0 <= i < r.len() - 1 implies (#[trigger] r[i]).capacity != r[i + 1].capacity by {
            assert(r[i] == s[i]);
            if i + 1 < n {
                assert(r[i + 1] == s[i + 1]);
            }
        }
        assert forall|i: int| 0 <= i < r.len() implies (#[trigger] r[i]).window.start < r[i].window.end by {
            if i < n {
                assert(r[i] == s[i]);
            }
        }
        if n > 0 {
            assert(r[0] == s[0]);
        }
    }
}

/// The values of `v` strictly increase.
pub open spec fn strictly_increasing(v: Seq<i64>) -> bool {
    forall|i: int, j: int| 0 <= i < j < v.len() ==> v[i] < v[j]
}

/// The sorted values with repeats removed.
pub fn dedup_sorted(v: &Vec<i64>) -> (r: Vec<i64>)
    requires
        crate::sort::sorted_by_key(v@),
    ensures
        strictly_increasing(r@),
        forall|x: i64| r@.contains(x) <==> v@.contains(x),
{
    let mut r: Vec<i64> = Vec::new();
    let mut i: usize = 0;
    while i < v.len()
        invariant
            i <= v.len(),
            crate::sort::sorted_by_key(v@),
            strictly_increasing(r@),
            forall|x: i64| r@.contains(x) <==> v@.subrange(0, i as int).contains(x),
            r.len() > 0 ==> i > 0 && r@.last() == v@[i - 1],
        decreases v.len() - i,
    {
        let x = v[i];
        let ghost old_r = r@;
        if r.len() == 0 || r[r.len() - 1] != x {
            proof {
                if r.len() > 0 {
                    assert(v@[i - 1].key_of() <= v@[i as int].key_of());
                }
            }
            r.push(x);
            proof {
                assert forall|a: int, b: int| 0 <= a < b < r@.len() implies r@[a] < r@[b] by {
                    if b == r@.len() - 1 && a < b {
                        assert(old_r[a] <= old_r.last());
                        if a < old_r.len() - 1 {
                            assert(old_r[a] < old_r.last());
                        }
                    } else {
                        assert(old_r[a] < old_r[b]);
                    }
                }
            }
        }
        proof {
            assert(v@.subrange(0, i + 1) =~= v@.subrange(0, i as int).push(x));
            assert forall|y: i64| r@.contains(y) <==> v@.subrange(0, i + 1).contains(y) by {
                if r@.contains(y) && r@.len() > old_r.len() && y != x {
                    let k = choose|k: int| 0 <= k < r@.len() && r@[k] == y;
                    assert(old_r[k] == y);
                }
                if v@.subrange(0, i + 1).contains(y) && y == x {
                    assert(r@.last() == x);
                }
                if v@.subrange(0, i + 1).contains(y) && y != x {
                    let sub = v@.subrange(0, i + 1);
                    let k = choose|k: int| 0 <= k < sub.len() && sub[k] == y;
                    assert(v@.subrange(0, i as int)[k] == y);
                    assert(old_r.contains(y));
                    let m = choose|m: int| 0 <= m < old_r.len() && old_r[m] == y;
                    assert(r@[m] == y);
                }
            }
        }
        i = i + 1;
    }
    proof {
        assert(v@.subrange(0, v.len() as int) =~= v@);
    }
    r
}

/// The boundaries of the query, of the open windows and of the capacity sources.
fn collect_points(query: Window, open: &Vec<Window>, sources: &Vec<CapacitySource>) -> (r: Vec<i64>)
    requires
        query.start <= query.end,
        within(open@, query),
        forall|i: int| 0 <= i < open.len() ==> (#[trigger] open@[i]).start <= open@[i].end,
        forall|i: int| 0 <= i < sources.len() ==> query.start <= (#[trigger] sources@[i]).window.start
            && sources@[i].window.start <= sources@[i].window.end
            && sources@[i].window.end <= query.end,
    ensures
        r@.contains(query.start),
        r@.contains(query.end),
        forall|i: int| 0 <= i < open.len() ==> r@.contains((#[trigger] open@[i]).start) && r@.contains(open@[i].end),
        forall|i: int| 0 <= i < sources.len() ==> r@.contains((#[trigger] sources@[i]).window.start) && r@.contains(sources@[i].window.end),
        forall|k: int| 0 <= k < r.len() ==> query.start <= #[trigger] r@[k] <= query.end,
{
    let mut points: Vec<i64> = Vec::new();
    points.push(query.start);
    points.push(query.end);
    assert(points@[0] == query.start && points@[1] == query.end);
    let mut i: usize = 0;
    while i < open.len()
        invariant
            i <= open.len(),
            within(open@, query),
            forall|i: int| 0 <= i < open.len() ==> (#[trigger] open@[i]).start <= open@[i].end,
            query.start <= query.end,
            points@.len() >= 2,
            points@[0] == query.start && points@[1] == query.end,
            forall|j: int| 0 <= j < i ==> points@.contains((#[trigger] open@[j]).start) && points@.contains(open@[j].end),
            forall|k: int| 0 <= k < points.len() ==> query.start <= #[trigger] points@[k] <= query.end,
        decreases open.len() - i,
    {
        let ghost old_p = points@;
        points.push(open[i].start);
        points.push(open[i].end);
        proof {
            assert forall|j: int| 0 <= j < i + 1 implies points@.contains((#[trigger] open@[j]).start) && points@.contains(open@[j].end) by {
                if j < i {
                    let a = choose|a: int| 0 <= a < old_p.len() && old_p[a] == open@[j].start;
                    let b = choose|b: int| 0 <= b < old_p.len() && old_p[b] == open@[j].end;
                    assert(points@[a] == old_p[a] && points@[b] == old_p[b]);
                } else {
                    assert(points@[points@.len() - 2] == open@[j].start);
                    assert(points@[points@.len() - 1] == open@[j].end);
                }
            }
        }
        i = i + 1;
    }
    let ghost mid = points@;
    let mut k: usize = 0;
    while k < sources.len()
        invariant
            k <= sources.len(),
            query.start <= query.end,
            forall|i: int| 0 <= i < sources.len() ==> query.start <= (#[trigger] sources@[i]).window.start
                && sources@[i].window.start <= sources@[i].window.end
                && sources@[i].window.end <= query.end,
            points@.len() >= mid.len(),
            forall|j: int| 0 <= j < mid.len() ==> points@[j] == mid[j],
            forall|j: int| 0 <= j < k ==> points@.contains((#[trigger] sources@[j]).window.start) && points@.contains(sources@[j].window.end),
            forall|q: int| 0 <= q < points.len() ==> query.start <= #[trigger] points@[q] <= query.end,
        decreases sources.len() - k,
    {
        let ghost old_p = points@;
        points.push(sources[k].window.start);
        points.push(sources[k].window.end);
        proof {
            assert forall|j: int| 0 <= j < k + 1 implies points@.contains((#[trigger] sources@[j]).window.start) && points@.contains(sources@[j].window.end) by {
                if j < k {
                    let a = choose|a: int| 0 <= a < old_p.len() && old_p[a] == sources@[j].window.start;
                    let b = choose|b: int| 0 <= b < old_p.len() && old_p[b] == sources@[j].window.end;
                    assert(points@[a] == old_p[a] && points@[b] == old_p[b]);
                } else {
                    assert(points@[points@.len() - 2] == sources@[j].window.start);
                    assert(points@[points@.len() - 1] == sources@[j].window.end);
                }
            }
        }
        k = k + 1;
    }
    proof {
        assert(points@[0] == query.start && points@[1] == query.end);
        assert forall|j: int| 0 <= j < open.len() implies points@.contains((#[trigger] open@[j]).start) && points@.contains(open@[j].end) by {
            let a = choose|a: int| 0 <= a < mid.len() && mid[a] == open@[j].start;
            let b = choose|b: int| 0 <= b < mid.len() && mid[b] == open@[j].end;
            assert(points@[a] == mid[a] && points@[b] == mid[b]);
        }
    }
    points
}

/// A value of a strictly increasing list is not strictly between two neighbours.
proof fn lemma_not_between(p: Seq<i64>, k: int, x: i64)
    requires
        strictly_increasing(p),
        0 <= k < p.len() - 1,
        p.contains(x),
    ensures
        x <= p[k] || x >= p[k + 1],
{
    let j = choose|j: int| 0 <= j < p.len() && p[j] == x;
    if j <= k {
        if j < k {
            assert(p[j] < p[k]);
        }
    } else {
        if j > k + 1 {
            assert(p[k + 1] < p[j]);
        }
    }
}

/// A window with both ends among the points holds all of a gap between
/// neighbouring points, or none of it.
proof fn lemma_window_constant(p: Seq<i64>, k: int, w: Window, t: int)
    requires
        strictly_increasing(p),
        0 <= k < p.len() - 1,
        p.contains(w.start),
        p.contains(w.end),
        p[k] <= t < p[k + 1],
    ensures
        w.has(t) == w.has(p[k] as int),
{
    lemma_not_between(p, k, w.start);
    lemma_not_between(p, k, w.end);
}

impl Calendar {
    /// The state windows of a calendar without components over a non-empty query.
    pub fn own_state_windows(&self, query: Window) -> (r: Vec<StateWindow>)
        requires
            own_wf(*self),
            proper_window(query),
            query.start < query.end,
        ensures
            segmentation(r@, query.start as int, query.end as int),
            values_match(r@, |t: int| win_capacity(*self, t)),
    {
        let open_windows = self.own_calendar_windows(query);
        let sources = capacity_sources(self, query);
        let raw_points = collect_points(query, &open_windows, &sources);
        let sorted_points = crate::sort::sort_by_key(raw_points);
        proof {
            crate::sort::lemma_same_multiset_same_elements(sorted_points@, raw_points@);
        }
        let points = dedup_sorted(&sorted_points);
        let ghost d = self.default_capacity as int;
        let ghost g = |t: int| if covers_at(open_windows@, t) { source_cap(sources@, t, d) } else { 0 };
        let ghost ps = points@;
        proof {
            assert(ps.contains(query.start));
            assert(ps.contains(query.end));
            assert forall|k: int| 0 <= k < ps.len() implies query.start <= #[trigger] ps[k] <= query.end by {
                assert(sorted_points@.contains(ps[k]));
                assert(raw_points@.contains(ps[k]));
                let j = choose|j: int| 0 <= j < raw_points@.len() && raw_points@[j] == ps[k];
            }
            let a = choose|a: int| 0 <= a < ps.len() && ps[a] == query.start;
            let b = choose|b: int| 0 <= b < ps.len() && ps[b] == query.end;
            if a > 0 {
                assert(ps[0] < ps[a]);
            }
            if b < ps.len() - 1 {
                assert(ps[b] < ps[ps.len() - 1]);
            }
            assert(a != b);
            assert(ps[0] == query.start);
            assert(ps.last() == query.end);
            assert forall|i: int| 0 <= i < open_windows.len() implies ps.contains((#[trigger] open_windows@[i]).start) && ps.contains(open_windows@[i].end) by {
                assert(raw_points@.contains(open_windows@[i].start));
                assert(raw_points@.contains(open_windows@[i].end));
                assert(sorted_points@.contains(open_windows@[i].start));
                assert(sorted_points@.contains(open_windows@[i].end));
            }
            assert forall|i: int| 0 <= i < sources.len() implies ps.contains((#[trigger] sources@[i]).window.start) && ps.contains(sources@[i].window.end) by {
                assert(raw_points@.contains(sources@[i].window.start));
                assert(raw_points@.contains(sources@[i].window.end));
                assert(sorted_points@.contains(sources@[i].window.start));
                assert(sorted_points@.contains(sources@[i].window.end));
            }
        }
        let mut result: Vec<StateWindow> = Vec::new();
        let mut previous = points[0];
        let mut open_index: usize = 0;
        let mut idx: usize = 1;
        while idx < points.len()
            invariant
                points@ == ps,
                strictly_increasing(ps),
                ps.len() >= 2,
                ps[0] == query.start,
                ps.last() == query.end,
                1 <= idx <= ps.len(),
                previous == ps[idx - 1],
                canonical(open_windows@),
                forall|i: int| 0 <= i < open_windows.len() ==> ps.contains((#[trigger] open_windows@[i]).start) && ps.contains(open_windows@[i].end),
                forall|i: int| 0 <= i < sources.len() ==> ps.contains((#[trigger] sources@[i]).window.start) && ps.contains(sources@[i].window.end),
                open_index <= open_windows.len(),
                forall|j: int| 0 <= j < open_index ==> (#[trigger] open_windows@[j]).end <= previous,
                segmentation(result@, query.start as int, previous as int),
                values_match(result@, g),
                d == self.default_capacity,
                g == (|t: int| if covers_at(open_windows@, t) { source_cap(sources@, t, d) } else { 0 }),
            decreases ps.len() - idx,
        {
            let current = points[idx];
            while open_index < open_windows.len() && open_windows[open_index].end <= previous
                invariant
                    open_index <= open_windows.len(),
                    forall|j: int| 0 <= j < open_index ==> (#[trigger] open_windows@[j]).end <= previous,
                decreases open_windows.len() - open_index,
            {
                open_index = open_index + 1;
            }
            let mut capacity: i32 = 0;
            let inside = open_index < open_windows.len() && open_windows[open_index].start <= previous
                && current <= open_windows[open_index].end;
            proof {
                assert(ps[idx - 1] < ps[idx as int]);
                assert(inside == covers_at(open_windows@, previous as int)) by {
                    if open_index < open_windows.len() {
                        let w = open_windows@[open_index as int];
                        if w.start <= previous {
                            lemma_not_between(ps, idx - 1, w.end);
                            assert(w.has(previous as int));
                        } else if covers_at(open_windows@, previous as int) {
                            let j = choose|j: int| 0 <= j < open_windows@.len() && (#[trigger] open_windows@[j]).has(previous as int);
                            if j > open_index {
                                assert(w.end < open_windows@[j].start);
                            }
                        }
                    } else if covers_at(open_windows@, previous as int) {
                        let j = choose|j: int| 0 <= j < open_windows@.len() && (#[trigger] open_windows@[j]).has(previous as int);
                    }
                }
            }
            if inside {
                capacity = source_capacity_at(&sources, previous, self.default_capacity);
            }
            proof {
                assert forall|t: int| previous <= t < current implies #[trigger] g(t) == capacity by {
                    assert(covers_at(open_windows@, t) == covers_at(open_windows@, previous as int)) by {
                        if covers_at(open_windows@, t) {
                            let j = choose|j: int| 0 <= j < open_windows@.len() && (#[trigger] open_windows@[j]).has(t);
                            lemma_window_constant(ps, idx - 1, open_windows@[j], t);
                        }
                        if covers_at(open_windows@, previous as int) {
                            let j = choose|j: int| 0 <= j < open_windows@.len() && (#[trigger] open_windows@[j]).has(previous as int);
                            lemma_window_constant(ps, idx - 1, open_windows@[j], t);
                        }
                    }
                    assert forall|i: int| 0 <= i < sources@.len() implies (#[trigger] sources@[i]).window.has(t) == sources@[i].window.has(previous as int) by {
                        lemma_window_constant(ps, idx - 1, sources@[i].window, t);
                    }
                    lemma_source_cap_same(sources@, t, previous as int, d);
                }
                lemma_append_state(result@, query.start as int, previous, current, capacity, g);
            }
            add_state_window(&mut result, StateWindow { window: Window { start: previous, end: current }, capacity });
            previous = current;
            idx = idx + 1;
        }
        proof {
            assert forall|i: int, t: int| 0 <= i < result@.len() && #[trigger] result@[i].window.has(t) implies result@[i].capacity == win_capacity(*self, t) by {
                assert(result@[i].capacity == g(t));
                assert(query.start <= result@[i].window.start && result@[i].window.end <= query.end);
                assert(covers_at(open_windows@, t) <==> (query.has(t) && win_opened(*self, t) && !win_closed(*self, t)));
            }
        }
        result
    }
}

/// Away from the first and last representable day, the expanded windows of a
/// calendar without components give it its capacity.
pub proof fn lemma_win_capacity_core(c: Calendar, t: int)
    requires
        own_wf(c),
        !composite(c),
        core_instant(t),
    ensures
        win_capacity(c, t) == capacity_at(c, t),
{
    lemma_core_dates(t);
    crate::rules::lemma_rules_contains_covers(c.open_rules@, t);
    crate::rules::lemma_rules_contains_covers(c.break_rules@, t);
}

/// Components with the same capacities at two instants give the same running minimum.
pub proof fn lemma_components_min_same(cs: Seq<Calendar>, a: int, b: int, n: int)
    requires
        forall|i: int| 0 <= i < cs.len() ==> capacity_at(#[trigger] cs[i], a) == capacity_at(cs[i], b),
    ensures
        components_min(cs, a, n) == components_min(cs, b, n),
    decreases n,
{
    if n > 0 && n <= cs.len() {
        lemma_components_min_same(cs, a, b, n - 1);
    }
}

/// `p` is the start or the end of one of the windows in `states`.
pub open spec fn boundary_of(states: Seq<Vec<StateWindow>>, p: int) -> bool {
    exists|c: int, i: int|
        0 <= c < states.len() && 0 <= i < states[c]@.len() && (p == (#[trigger] states[c]@[i]).window.start || p
            == states[c]@[i].window.end)
}

/// The boundaries of the query and of each component's state windows.
fn collect_state_points(query: Window, states: &Vec<Vec<StateWindow>>) -> (r: Vec<i64>)
    requires
        query.start <= query.end,
        forall|c: int| 0 <= c < states.len() ==> segmentation(#[trigger] states@[c]@, query.start as int, query.end as int),
    ensures
        r@.contains(query.start),
        r@.contains(query.end),
        forall|c: int, i: int| 0 <= c < states.len() && 0 <= i < states@[c]@.len() ==> r@.contains((#[trigger] states@[c]@[i]).window.start) && r@.contains(states@[c]@[i].window.end),
        forall|k: int| 0 <= k < r.len() ==> query.start <= #[trigger] r@[k] <= query.end,
        forall|k: int| 0 <= k < r.len() ==> #[trigger] r@[k] == query.start || r@[k] == query.end || boundary_of(states@, r@[k] as int),
{
    let mut points: Vec<i64> = Vec::new();
    points.push(query.start);
    points.push(query.end);
    assert(points@[0] == query.start && points@[1] == query.end);
    let mut c: usize = 0;
    while c < states.len()
        invariant
            c <= states.len(),
            query.start <= query.end,
            forall|c: int| 0 <= c < states.len() ==> segmentation(#[trigger] states@[c]@, query.start as int, query.end as int),
            points@.len() >= 2,
            points@[0] == query.start && points@[1] == query.end,
            forall|a: int, i: int| 0 <= a < c && 0 <= i < states@[a]@.len() ==> points@.contains((#[trigger] states@[a]@[i]).window.start) && points@.contains(states@[a]@[i].window.end),
            forall|k: int| 0 <= k < points.len() ==> query.start <= #[trigger] points@[k] <= query.end,
            forall|k: int| 0 <= k < points.len() ==> #[trigger] points@[k] == query.start || points@[k] == query.end || boundary_of(states@, points@[k] as int),
        decreases states.len() - c,
    {
        let ghost before = points@;
        let list = &states[c];
        let mut i: usize = 0;
        while i < list.len()
            invariant
                i <= list.len(),
                *list == states@[c as int],
                segmentation(list@, query.start as int, query.end as int),
                points@.len() >= before.len(),
                forall|j: int| 0 <= j < before.len() ==> points@[j] == before[j],
                forall|j: int| 0 <= j < i ==> points@.contains((#[trigger] list@[j]).window.start) && points@.contains(list@[j].window.end),
                forall|k: int| 0 <= k < points.len() ==> query.start <= #[trigger] points@[k] <= query.end,
                forall|k: int| 0 <= k < points.len() ==> #[trigger] points@[k] == query.start || points@[k] == query.end || boundary_of(states@, points@[k] as int),
                c < states.len(),
            decreases list.len() - i,
        {
            let ghost old_p = points@;
            let w = list[i].window;
            points.push(w.start);
            points.push(w.end);
            proof {
                assert(states@[c as int]@[i as int] == list@[i as int]);
                assert(boundary_of(states@, w.start as int));
                assert(boundary_of(states@, w.end as int));
                assert forall|k: int| 0 <= k < points.len() implies #[trigger] points@[k] == query.start || points@[k] == query.end || boundary_of(states@, points@[k] as int) by {
                    if k < old_p.len() {
                        assert(points@[k] == old_p[k]);
                    }
                }
                assert(list@[i as int].window.start < list@[i as int].window.end);
                assert forall|j: int| 0 <= j < i + 1 implies points@.contains((#[trigger] list@[j]).window.start) && points@.contains(list@[j].window.end) by {
                    if j < i {
                        let a = choose|a: int| 0 <= a < old_p.len() && old_p[a] == list@[j].window.start;
                        let b = choose|b: int| 0 <= b < old_p.len() && old_p[b] == list@[j].window.end;
                        assert(points@[a] == old_p[a] && points@[b] == old_p[b]);
                    } else {
                        assert(points@[points@.len() - 2] == list@[j].window.start);
                        assert(points@[points@.len() - 1] == list@[j].window.end);
                    }
                }
            }
            i = i + 1;
        }
        proof {
            assert forall|a: int, j: int| 0 <= a < c + 1 && 0 <= j < states@[a]@.len() implies points@.contains((#[trigger] states@[a]@[j]).window.start) && points@.contains(states@[a]@[j].window.end) by {
                if a < c {
                    let x = choose|x: int| 0 <= x < before.len() && before[x] == states@[a]@[j].window.start;
                    let y = choose|y: int| 0 <= y < before.len() && before[y] == states@[a]@[j].window.end;
                    assert(points@[x] == before[x] && points@[y] == before[y]);
                } else {
                    assert(list@[j] == states@[a]@[j]);
                }
            }
        }
        c = c + 1;
    }
    points
}

/// Where one component's state windows meet strictly inside the query, that
/// component's state value changes: the composite calendar has a cut there.
proof fn lemma_boundary_is_cut(c: Calendar, states: Seq<Vec<StateWindow>>, a: int, e: int, p: int)
    requires
        composite(c),
        states.len() == c.components@.len(),
        forall|k: int| 0 <= k < states.len() ==> segmentation(#[trigger] states[k]@, a, e),
        forall|k: int| 0 <= k < states.len() ==> values_match(#[trigger] states[k]@, |t: int| query_value(c.components@[k], a, t)),
        a < p < e,
        boundary_of(states, p),
    ensures
        cut_at(c, a, p),
{
    let (k, i) = choose|k: int, i: int|
        0 <= k < states.len() && 0 <= i < states[k]@.len() && (p == (#[trigger] states[k]@[i]).window.start || p
            == states[k]@[i].window.end);
    let s = states[k]@;
    assert(segmentation(s, a, e));
    let j = if p == s[i].window.start { i } else { i + 1 };
    if p == s[i].window.start {
        if i == 0 {
            assert(s[0].window.start == a);
        }
    } else {
        if i == s.len() - 1 {
            assert(s.last().window.end == e);
        }
        assert(s[i].window.end == s[i + 1].window.start);
    }
    assert(0 < j < s.len());
    assert(s[j - 1].window.end == s[j].window.start);
    assert(s[j - 1].capacity != s[j].capacity);
    assert(s[j - 1].window.start < s[j - 1].window.end);
    assert(s[j].window.start < s[j].window.end);
    assert(s[j - 1].window.has(p - 1));
    assert(s[j].window.has(p));
    assert(values_match(s, |t: int| query_value(c.components@[k], a, t)));
    assert(s[j - 1].capacity == query_value(c.components@[k], a, p - 1));
    assert(s[j].capacity == query_value(c.components@[k], a, p));
}

impl Calendar {
    /// The segmentation of a composite calendar over a non-empty query, cut at
    /// every boundary of its components' state windows, each part taking the
    /// calendar's capacity at its start.
    #[verifier::spinoff_prover]
    #[verifier::rlimit(40)]
    fn composite_segments(&self, query: Window, states: &Vec<Vec<StateWindow>>) -> (r: Vec<StateWindow>)
        requires
            wf(*self),
            composite(*self),
            proper_window(query),
            query.start < query.end,
            states@.len() == self.components@.len(),
            forall|c: int| 0 <= c < states.len() ==> segmentation(#[trigger] states@[c]@, query.start as int, query.end as int),
            core_range(query.start as int, query.end as int) ==> forall|c: int| 0 <= c < states.len() ==> values_match(
                #[trigger] states@[c]@,
                |t: int| capacity_at(self.components@[c], t),
            ),
            forall|c: int| 0 <= c < states.len() ==> values_match(
                #[trigger] states@[c]@,
                |t: int| query_value(self.components@[c], query.start as int, t),
            ),
        ensures
            segmentation(r@, query.start as int, query.end as int),
            core_range(query.start as int, query.end as int) ==> values_match(r@, |t: int| capacity_at(*self, t)),
            starts_match(r@, *self),
            values_match(r@, |t: int| query_value(*self, query.start as int, t)),
    {
        let raw_points = collect_state_points(query, states);
        let sorted_points = crate::sort::sort_by_key(raw_points);
        proof {
            crate::sort::lemma_same_multiset_same_elements(sorted_points@, raw_points@);
        }
        let points = dedup_sorted(&sorted_points);
        let ghost ps = points@;
        let ghost f = |t: int| capacity_at(*self, t);
        let ghost h = |t: int| query_value(*self, query.start as int, t);
        let ghost core = core_range(query.start as int, query.end as int);
        proof {
            assert forall|k: int| 0 <= k < ps.len() implies #[trigger] ps[k] == query.start || ps[k] == query.end || boundary_of(
                states@,
                ps[k] as int,
            ) by {
                assert(sorted_points@.contains(ps[k]));
                assert(raw_points@.contains(ps[k]));
                let j = choose|j: int| 0 <= j < raw_points@.len() && raw_points@[j] == ps[k];
            }
            assert(ps.contains(query.start));
            assert(ps.contains(query.end));
            assert forall|k: int| 0 <= k < ps.len() implies query.start <= #[trigger] ps[k] <= query.end by {
                assert(sorted_points@.contains(ps[k]));
                assert(raw_points@.contains(ps[k]));
                let j = choose|j: int| 0 <= j < raw_points@.len() && raw_points@[j] == ps[k];
            }
            let a = choose|a: int| 0 <= a < ps.len() && ps[a] == query.start;
            let b = choose|b: int| 0 <= b < ps.len() && ps[b] == query.end;
            if a > 0 {
                assert(ps[0] < ps[a]);
            }
            if b < ps.len() - 1 {
                assert(ps[b] < ps[ps.len() - 1]);
            }
            assert(a != b);
            assert forall|c: int, i: int| 0 <= c < states.len() && 0 <= i < states@[c]@.len() implies ps.contains((#[trigger] states@[c]@[i]).window.start) && ps.contains(states@[c]@[i].window.end) by {
                assert(raw_points@.contains(states@[c]@[i].window.start));
                assert(raw_points@.contains(states@[c]@[i].window.end));
                assert(sorted_points@.contains(states@[c]@[i].window.start));
                assert(sorted_points@.contains(states@[c]@[i].window.end));
            }
        }
        let mut result: Vec<StateWindow> = Vec::new();
        let mut previous = points[0];
        let mut idx: usize = 1;
        while idx < points.len()
            invariant
                wf(*self),
                composite(*self),
                proper_window(query),
                points@ == ps,
                strictly_increasing(ps),
                ps.len() >= 2,
                ps[0] == query.start,
                ps.last() == query.end,
                forall|k: int| 0 <= k < ps.len() ==> query.start <= #[trigger] ps[k] <= query.end,
                1 <= idx <= ps.len(),
                previous == ps[idx - 1],
                states@.len() == self.components@.len(),
                forall|c: int| 0 <= c < states.len() ==> segmentation(#[trigger] states@[c]@, query.start as int, query.end as int),
                core ==> forall|c: int| 0 <= c < states.len() ==> values_match(
                    #[trigger] states@[c]@,
                    |t: int| capacity_at(self.components@[c], t),
                ),
                forall|c: int, i: int| 0 <= c < states.len() && 0 <= i < states@[c]@.len() ==> ps.contains((#[trigger] states@[c]@[i]).window.start) && ps.contains(states@[c]@[i].window.end),
                segmentation(result@, query.start as int, previous as int),
                core ==> values_match(result@, f),
                starts_match(result@, *self),
                values_match(result@, h),
                forall|k: int| 0 <= k < ps.len() ==> #[trigger] ps[k] == query.start || ps[k] == query.end || boundary_of(
                    states@,
                    ps[k] as int,
                ),
                forall|c: int| 0 <= c < states.len() ==> values_match(
                    #[trigger] states@[c]@,
                    |t: int| query_value(self.components@[c], query.start as int, t),
                ),
                h == (|t: int| query_value(*self, query.start as int, t)),
                f == (|t: int| capacity_at(*self, t)),
                core == core_range(query.start as int, query.end as int),
            decreases ps.len() - idx,
        {
            let current = points[idx];
            proof {
                assert(ps[idx - 1] < ps[idx as int]);
                assert(query.start <= previous <= query.end);
            }
            let capacity = self.get_capacity_at(previous);
            proof {
                if core {
                    assert forall|t: int| previous <= t < current implies #[trigger] f(t) == capacity by {
                        assert forall|c: int| 0 <= c < self.components@.len() implies capacity_at(#[trigger] self.components@[c], t) == capacity_at(self.components@[c], previous as int) by {
                            let s = states@[c]@;
                            crate::states::lemma_segmentation_covers(s, query.start as int, query.end as int, previous as int);
                            let i = choose|i: int| 0 <= i < s.len() && (#[trigger] s[i]).window.has(previous as int);
                            lemma_window_constant(ps, idx - 1, s[i].window, t);
                            assert(values_match(s, |t: int| capacity_at(self.components@[c], t)));
                            assert(s[i].window.has(t));
                        }
                        lemma_components_min_same(self.components@, t, previous as int, self.components@.len() as int);
                    }
                    lemma_append_state(result@, query.start as int, previous, current, capacity, f);
                } else {
                    lemma_append_segmentation(result@, query.start as int, previous, current, capacity);
                }
                lemma_append_starts(result@, StateWindow { window: Window { start: previous, end: current }, capacity }, *self);
                let a = query.start as int;
                if previous != query.start {
                    assert(ps[idx - 1] == previous);
                    lemma_boundary_is_cut(*self, states@, a, query.end as int, previous as int);
                }
                assert forall|t: int| previous < t < current implies !#[trigger] cut_at(*self, a, t) by {
                    assert forall|k: int| 0 <= k < self.components@.len() implies query_value(
                        #[trigger] self.components@[k],
                        a,
                        t - 1,
                    ) == query_value(self.components@[k], a, t) by {
                        let s = states@[k]@;
                        assert(segmentation(s, a, query.end as int));
                        crate::states::lemma_segmentation_covers(s, a, query.end as int, previous as int);
                        let i = choose|i: int| 0 <= i < s.len() && (#[trigger] s[i]).window.has(previous as int);
                        lemma_window_constant(ps, idx - 1, s[i].window, t);
                        lemma_window_constant(ps, idx - 1, s[i].window, t - 1);
                        assert(values_match(s, |t: int| query_value(self.components@[k], a, t)));
                        assert(s[i].window.has(t));
                        assert(s[i].window.has(t - 1));
                    }
                }
                assert forall|t: int| previous <= t < current implies #[trigger] h(t) == capacity by {
                    lemma_last_cut(*self, a, previous as int, t);
                }
                lemma_append_state(result@, a, previous, current, capacity, h);
            }
            add_state_window(&mut result, StateWindow { window: Window { start: previous, end: current }, capacity });
            previous = current;
            idx = idx + 1;
        }
        result
    }

    /// The segmentation of `[start, end)` into windows of constant capacity;
    /// fails when `end` is before `start`, and is empty when they are equal.
    pub fn state_windows(&self, start: i64, end: i64) -> (r: Result<Vec<StateWindow>, TimeGridError>)
        requires
            wf(*self),
            valid_instant(start as int),
            valid_instant(end as int),
        ensures
            end < start ==> r == Err::<Vec<StateWindow>, TimeGridError>(TimeGridError::EndBeforeStart),
            start <= end ==> r is Ok,
            r matches Ok(s) ==> states_of(*self, start, end, s@),
        decreases self,
    {
        let query = Window::new(start, end)?;
        if query.is_empty() {
            return Ok(Vec::new());
        }
        if self.is_composite() {
            let mut states: Vec<Vec<StateWindow>> = Vec::new();
            let mut c: usize = 0;
            while c < self.components.len()
                invariant
                    wf(*self),
                    composite(*self),
                    valid_instant(start as int),
                    valid_instant(end as int),
                    start < end,
                    c <= self.components@.len(),
                    states@.len() == c,
                    forall|k: int| 0 <= k < c ==> segmentation(#[trigger] states@[k]@, start as int, end as int),
                    core_range(start as int, end as int) ==> forall|k: int| 0 <= k < c ==> values_match(
                        #[trigger] states@[k]@,
                        |t: int| capacity_at(self.components@[k], t),
                    ),
                    forall|k: int| 0 <= k < c ==> values_match(
                        #[trigger] states@[k]@,
                        |t: int| query_value(self.components@[k], start as int, t),
                    ),
                decreases self.components@.len() - c,
            {
                proof {
                    assert(decreases_to!(self => self.components));
                    assert(decreases_to!(self.components => self.components@));
                    assert(decreases_to!(self.components@ => self.components@[c as int]));
                    assert(wf(self.components@[c as int]));
                }
                let component_states = match self.components[c].state_windows(start, end) {
                    Ok(s) => s,
                    Err(e) => {
                        return Err(e);
                    },
                };
                states.push(component_states);
                c = c + 1;
            }
            let r = self.composite_segments(query, &states);
            return Ok(r);
        }
        let r = self.own_state_windows(query);
        proof {
            assert forall|i: int, t: int| 0 <= i < r@.len() && #[trigger] r@[i].window.has(t) implies r@[i].capacity == query_value(*self, start as int, t) by {
                assert(r@[i].capacity == win_capacity(*self, t));
            }
            if core_range(start as int, end as int) {
                assert forall|i: int, t: int| 0 <= i < r@.len() && #[trigger] r@[i].window.has(t) implies r@[i].capacity == capacity_at(*self, t) by {
                    lemma_segmentation_order(r@, start as int, end as int);
                    assert(r@[i].capacity == win_capacity(*self, t));
                    lemma_win_capacity_core(*self, t);
                }
            }
        }
        Ok(r)
    }
}

/// `s` is the segmentation of `[start, end)` into the calendar's state
/// windows: they follow the state value of the query everywhere, which is
/// `capacity_at` away from the edges of time and the expanded windows of a
/// calendar without components; a composite calendar's windows each take its
/// capacity at their start.
pub open spec fn states_of(c: Calendar, start: i64, end: i64, s: Seq<StateWindow>) -> bool {
    &&& segmentation(s, start as int, end as int)
    &&& values_match(s, |t: int| query_value(c, start as int, t))
    &&& core_range(start as int, end as int) ==> values_match(s, |t: int| capacity_at(c, t))
    &&& !composite(c) ==> values_match(s, |t: int| win_capacity(c, t))
    &&& composite(c) ==> starts_match(s, c)
}

/// `ws` is the canonical list of the windows of `[start, end)` whose capacity
/// is at least `m`.
pub open spec fn windows_at_level(c: Calendar, start: i64, end: i64, m: int, ws: Seq<Window>) -> bool {
    &&& canonical(ws)
    &&& within(ws, Window { start, end })
    &&& forall|t: int| start <= t < end ==> (#[trigger] covers_at(ws, t) <==> query_value(c, start as int, t) >= m)
    &&& core_range(start as int, end as int) ==> forall|t: int| start <= t < end ==> (#[trigger] covers_at(ws, t) <==> capacity_at(c, t) >= m)
    &&& !composite(c) ==> forall|t: int| start <= t < end ==> (#[trigger] covers_at(ws, t) <==> win_capacity(c, t) >= m)
}

/// `ws` is the canonical list of the windows of `[start, end)` without capacity.
pub open spec fn windows_unavailable(c: Calendar, start: i64, end: i64, ws: Seq<Window>) -> bool {
    &&& canonical(ws)
    &&& within(ws, Window { start, end })
    &&& forall|t: int| start <= t < end ==> (#[trigger] covers_at(ws, t) <==> query_value(c, start as int, t) <= 0)
    &&& core_range(start as int, end as int) ==> forall|t: int| start <= t < end ==> (#[trigger] covers_at(ws, t) <==> capacity_at(c, t) == 0)
    &&& !composite(c) ==> forall|t: int| start <= t < end ==> (#[trigger] covers_at(ws, t) <==> win_capacity(c, t) <= 0)
}

/// The windows of a segmentation whose capacity is at least `minimum`, merged.
pub fn filter_states(states: &Vec<StateWindow>, minimum: i32, query: Window) -> (r: Vec<Window>)
    requires
        segmentation(states@, query.start as int, query.end as int),
    ensures
        canonical(r@),
        within(r@, query),
        forall|t: int| #[trigger] covers_at(r@, t) <==> exists|i: int| 0 <= i < states@.len() && (#[trigger] states@[i]).window.has(t) && states@[i].capacity >= minimum,
{
    proof {
        lemma_segmentation_order(states@, query.start as int, query.end as int);
    }
    let mut selected: Vec<Window> = Vec::new();
    let mut i: usize = 0;
    while i < states.len()
        invariant
            i <= states.len(),
            segmentation(states@, query.start as int, query.end as int),
            forall|t: int| #[trigger] covers_at(selected@, t) <==> exists|j: int| 0 <= j < i && (#[trigger] states@[j]).window.has(t) && states@[j].capacity >= minimum,
            forall|k: int| 0 <= k < selected.len() ==> query.start <= (#[trigger] selected@[k]).start && selected@[k].end <= query.end,
        decreases states.len() - i,
    {
        let ghost old_s = selected@;
        if states[i].capacity >= minimum {
            selected.push(states[i].window);
        }
        proof {
            assert forall|t: int| #[trigger] covers_at(selected@, t) <==> exists|j: int| 0 <= j < i + 1 && (#[trigger] states@[j]).window.has(t) && states@[j].capacity >= minimum by {
                if covers_at(selected@, t) {
                    let m = choose|m: int| 0 <= m < selected@.len() && (#[trigger] selected@[m]).has(t);
                    if m < old_s.len() {
                        assert(old_s[m] == selected@[m]);
                        assert(covers_at(old_s, t));
                    } else {
                        assert(states@[i as int].window.has(t));
                    }
                }
                if exists|j: int| 0 <= j < i + 1 && (#[trigger] states@[j]).window.has(t) && states@[j].capacity >= minimum {
                    let j = choose|j: int| 0 <= j < i + 1 && (#[trigger] states@[j]).window.has(t) && states@[j].capacity >= minimum;
                    if j < i {
                        assert(covers_at(old_s, t));
                        let m = choose|m: int| 0 <= m < old_s.len() && (#[trigger] old_s[m]).has(t);
                        assert(selected@[m] == old_s[m]);
                    } else {
                        assert(selected@[selected@.len() - 1].has(t));
                    }
                }
            }
        }
        i = i + 1;
    }
    let r = merge(selected);
    proof {
        assert forall|k: int| 0 <= k < r.len() implies query.start <= (#[trigger] r@[k]).start && r@[k].end <= query.end by {
            let a = choose|j: int| 0 <= j < selected.len() && (#[trigger] selected@[j]).start == r@[k].start;
            let b = choose|j: int| 0 <= j < selected.len() && (#[trigger] selected@[j]).end == r@[k].end;
        }
    }
    r
}

/// The capacity in a segmentation at an instant it covers.
pub proof fn lemma_segment_value(s: Seq<StateWindow>, start: int, end: int, f: spec_fn(int) -> int, t: int, minimum: int)
    requires
        segmentation(s, start, end),
        values_match(s, f),
        start <= t < end,
    ensures
        (exists|i: int| 0 <= i < s.len() && (#[trigger] s[i]).window.has(t) && s[i].capacity >= minimum) <==> f(t) >= minimum,
{
    lemma_segmentation_covers(s, start, end, t);
    let i = choose|i: int| 0 <= i < s.len() && (#[trigger] s[i]).window.has(t);
    assert(s[i].capacity == f(t));
}

impl Calendar {
    /// The canonical windows of `[start, end)` where the capacity is at least `minimum_capacity`.
    pub fn windows_with_capacity(&self, start: i64, end: i64, minimum_capacity: i32) -> (r: Result<Vec<Window>, TimeGridError>)
        requires
            wf(*self),
            valid_instant(start as int),
            valid_instant(end as int),
        ensures
            end < start ==> r == Err::<Vec<Window>, TimeGridError>(TimeGridError::EndBeforeStart),
            start <= end ==> r is Ok,
            r matches Ok(ws) ==> windows_at_level(*self, start, end, minimum_capacity as int, ws@),
    {
        let states = self.state_windows(start, end)?;
        let query = Window { start, end };
        let r = filter_states(&states, minimum_capacity, query);
        proof {
            assert forall|t: int| start <= t < end implies (#[trigger] covers_at(r@, t) <==> query_value(*self, start as int, t) >= minimum_capacity) by {
                lemma_segment_value(states@, start as int, end as int, |t: int| query_value(*self, start as int, t), t, minimum_capacity as int);
            }
            if core_range(start as int, end as int) {
                assert forall|t: int| start <= t < end implies (#[trigger] covers_at(r@, t) <==> capacity_at(*self, t) >= minimum_capacity) by {
                    lemma_segment_value(states@, start as int, end as int, |t: int| capacity_at(*self, t), t, minimum_capacity as int);
                }
            }
            if !composite(*self) {
                assert forall|t: int| start <= t < end implies (#[trigger] covers_at(r@, t) <==> win_capacity(*self, t) >= minimum_capacity) by {
                    lemma_segment_value(states@, start as int, end as int, |t: int| win_capacity(*self, t), t, minimum_capacity as int);
                }
            }
        }
        Ok(r)
    }

    /// The canonical windows of `[start, end)` with positive capacity.
    pub fn get_open_windows(&self, start: i64, end: i64) -> (r: Result<Vec<Window>, TimeGridError>)
        requires
            wf(*self),
            valid_instant(start as int),
            valid_instant(end as int),
        ensures
            end < start ==> r == Err::<Vec<Window>, TimeGridError>(TimeGridError::EndBeforeStart),
            start <= end ==> r is Ok,
            r matches Ok(ws) ==> windows_at_level(*self, start, end, 1, ws@),
    {
        self.windows_with_capacity(start, end, 1)
    }

    /// The canonical windows of `[start, end)` with capacity at least
    /// `minimum_capacity`, which must be positive.
    pub fn get_capacity_windows(&self, start: i64, end: i64, minimum_capacity: i32) -> (r: Result<Vec<Window>, TimeGridError>)
        requires
            wf(*self),
            valid_instant(start as int),
            valid_instant(end as int),
        ensures
            minimum_capacity <= 0 ==> r == Err::<Vec<Window>, TimeGridError>(TimeGridError::RequiredCapacityNotPositive),
            minimum_capacity > 0 && end < start ==> r == Err::<Vec<Window>, TimeGridError>(TimeGridError::EndBeforeStart),
            r is Ok <==> minimum_capacity > 0 && start <= end,
            r matches Ok(ws) ==> windows_at_level(*self, start, end, minimum_capacity as int, ws@),
    {
        crate::calendar::validate_positive_capacity(minimum_capacity)?;
        self.windows_with_capacity(start, end, minimum_capacity)
    }

    /// The canonical windows of `[start, end)` with zero capacity.
    pub fn get_unavailable_windows(&self, start: i64, end: i64) -> (r: Result<Vec<Window>, TimeGridError>)
        requires
            wf(*self),
            valid_instant(start as int),
            valid_instant(end as int),
        ensures
            end < start ==> r == Err::<Vec<Window>, TimeGridError>(TimeGridError::EndBeforeStart),
            start <= end ==> r is Ok,
            r matches Ok(ws) ==> windows_unavailable(*self, start, end, ws@),
    {
        let query = Window::new(start, end)?;
        if query.is_empty() {
            return Ok(Vec::new());
        }
        let open = self.get_open_windows(start, end)?;
        let r = crate::windows::complement(query, &open);
        proof {
            assert forall|t: int| start <= t < end implies (#[trigger] covers_at(r@, t) <==> query_value(*self, start as int, t) <= 0) by {
                assert(covers_at(open@, t) <==> query_value(*self, start as int, t) >= 1);
            }
            if core_range(start as int, end as int) {
                assert forall|t: int| start <= t < end implies (#[trigger] covers_at(r@, t) <==> capacity_at(*self, t) == 0) by {
                    assert(covers_at(open@, t) <==> capacity_at(*self, t) >= 1);
                    crate::time::lemma_core_dates(t);
                    crate::calendar::lemma_capacity_bounds(*self, t);
                }
            }
        }
        Ok(r)
    }

    /// The state windows of `[start, end)`.
    pub fn get_state_windows(&self, start: i64, end: i64) -> (r: Result<Vec<StateWindow>, TimeGridError>)
        requires
            wf(*self),
            valid_instant(start as int),
            valid_instant(end as int),
        ensures
            end < start ==> r == Err::<Vec<StateWindow>, TimeGridError>(TimeGridError::EndBeforeStart),
            start <= end ==> r is Ok,
            r matches Ok(s) ==> states_of(*self, start, end, s@),
    {
        self.state_windows(start, end)
    }
}

} // verus!
