//! Properties of the library as a whole: what holds across its operations.
use vstd::prelude::*;
use crate::time::{Window, core_range, date_of, MIN_DATE};
use crate::rules::WeeklyRule;
use crate::calendar::{
    Calendar, wf, composite, capacity_at, same_calendar, lemma_same_calendar, lemma_capacity_bounds,
};
use crate::states::{
    StateWindow, segmentation, values_match, lemma_segmentation_prefix, lemma_segmentation_order, states_of,
    windows_at_level, windows_unavailable, win_capacity, win_opened, win_closed, query_value,
};
use crate::windows::{covers_at, canonical, same_instants, lemma_canonical_unique};
use crate::measure::{count_where, lemma_count_split, lemma_count_same};
use crate::search::{
    exact_open, exact_range, work_pred, reaches, steps_well_formed, steps_cover, steps_total,
    lemma_steps_total_count, WorkingTimeTraceStep, chunk_pred, lemma_chunk_pred_exact,
    lemma_query_pred_exact,
};
use crate::calendar::{components_min, Entry, entries_with, position_of, lemma_position_of, distinct_ids};
use crate::around::{
    change_at, constant_run, around, cap_fn, current_window_found, previous_transition_found, next_transition_found,
    windows_found, raw_matches,
};
use crate::rules::WindowMatch;
use crate::analysis::TimeGridInstantAnalysis;
use crate::timeline::{
    TimeGridTimeline, timeline_wf, step_fn, lemma_step_agrees, timeline_slot_found, slot_end, timeline_level,
};
use crate::search::{steps_have, steps_cut, step_cut, chunk_of, slot_found, search_end, level_pred, slot_at, chunk_chain, next_cursor, chunk_end};
use crate::error::TimeGridError;

verus! {

broadcast use vstd::seq_lib::group_seq_properties;

/// In a segmentation matching `f`, the last window starts at the last change
/// of `f` inside the range, or at the range's start when there is none.
proof fn lemma_last_start(s: Seq<StateWindow>, a: int, b: int, f: spec_fn(int) -> int)
    requires
        segmentation(s, a, b),
        values_match(s, f),
        s.len() > 0,
    ensures
        s.last().window.start == a || (a < s.last().window.start < b && change_at(f, s.last().window.start as int)),
        forall|y: int| s.last().window.start < y < b ==> !#[trigger] change_at(f, y),
{
    let n = s.len() - 1;
    let m = s[n].window.start as int;
    assert(s.last() == s[n]);
    if n > 0 {
        assert(s[n - 1].window.end == m);
        assert(s[n - 1].window.has(m - 1));
        assert(s[n].window.has(m));
        lemma_segmentation_order(s, a, b);
        assert(s[0].window.end <= s[n].window.start);
    }
    assert forall|y: int| m < y < b implies !#[trigger] change_at(f, y) by {
        assert(s[n].window.has(y));
        assert(s[n].window.has(y - 1));
    }
}

/// The state windows of a range are determined by the capacity: two
/// segmentations of the same range that match the same capacity are equal.
pub proof fn law_state_windows_unique(s1: Seq<StateWindow>, s2: Seq<StateWindow>, a: int, b: int, f: spec_fn(int) -> int)
    requires
        segmentation(s1, a, b),
        segmentation(s2, a, b),
        values_match(s1, f),
        values_match(s2, f),
    ensures
        s1 == s2,
    decreases s1.len(),
{
    if s1.len() == 0 {
        assert(s2.len() == 0);
        assert(s1 =~= s2);
    } else {
        assert(s2.len() > 0);
        lemma_last_start(s1, a, b, f);
        lemma_last_start(s2, a, b, f);
        let m1 = s1.last().window.start as int;
        let m2 = s2.last().window.start as int;
        if m1 < m2 {
            assert(change_at(f, m2));
        } else if m2 < m1 {
            assert(change_at(f, m1));
        }
        assert(m1 == m2);
        let n1 = s1.len() - 1;
        let n2 = s2.len() - 1;
        assert(s1.last() == s1[n1] && s2.last() == s2[n2]);
        assert(s1[n1].window.has(m1) && s2[n2].window.has(m1));
        assert(s1[n1].capacity == f(m1) && s2[n2].capacity == f(m1));
        assert(s1[n1].window == s2[n2].window);
        if n1 == 0 || n2 == 0 {
            if n1 > 0 {
                lemma_segmentation_order(s1, a, b);
                assert(s1[0].window.end <= s1[n1].window.start);
            }
            if n2 > 0 {
                lemma_segmentation_order(s2, a, b);
                assert(s2[0].window.end <= s2[n2].window.start);
            }
            assert(n1 == 0 && n2 == 0);
            assert(s1 =~= s2);
        } else {
            lemma_segmentation_prefix(s1, a, b);
            lemma_segmentation_prefix(s2, a, b);
            let p1 = s1.drop_last();
            let p2 = s2.drop_last();
            assert forall|i: int, t: int| 0 <= i < p1.len() && #[trigger] p1[i].window.has(t) implies p1[i].capacity == f(t) by {
                assert(p1[i] == s1[i]);
            }
            assert forall|i: int, t: int| 0 <= i < p2.len() && #[trigger] p2[i].window.has(t) implies p2[i].capacity == f(t) by {
                assert(p2[i] == s2[i]);
            }
            law_state_windows_unique(p1, p2, a, m1, f);
            assert(s1 =~= p1.push(s1[n1]));
            assert(s2 =~= p2.push(s2[n2]));
        }
    }
}

/// A compiled timeline answers range queries as its calendar does: the state
/// windows it gives for a range inside its window are those the calendar gives
/// for that range, whenever the range starts where the timeline does, lies
/// away from the edges of time, or the calendar has no components.
pub proof fn law_compiled_states_match_calendar(
    tl: TimeGridTimeline,
    c: Calendar,
    start: i64,
    end: i64,
    from_timeline: Seq<StateWindow>,
    from_calendar: Seq<StateWindow>,
)
    requires
        timeline_wf(tl),
        same_calendar(tl.source, c),
        core_range(tl.window.start as int, tl.window.end as int) || !composite(c) || start == tl.window.start,
        tl.window.start <= start <= end <= tl.window.end,
        segmentation(from_timeline, start as int, end as int),
        values_match(from_timeline, step_fn(tl.states@)),
        states_of(c, start, end, from_calendar),
    ensures
        from_timeline == from_calendar,
{
    lemma_same_calendar(tl.source, c);
    if core_range(tl.window.start as int, tl.window.end as int) {
        let f = |t: int| capacity_at(c, t);
        assert forall|i: int, t: int| 0 <= i < from_timeline.len() && #[trigger] from_timeline[i].window.has(t) implies from_timeline[i].capacity
            == f(t) by {
            lemma_segmentation_order(from_timeline, start as int, end as int);
            lemma_step_agrees(tl.states@, tl.window.start as int, tl.window.end as int, |t: int| capacity_at(tl.source, t), t);
        }
        assert(core_range(start as int, end as int));
        law_state_windows_unique(from_timeline, from_calendar, start as int, end as int, f);
    } else if start == tl.window.start {
        let f = |t: int| query_value(c, start as int, t);
        crate::timeline::lemma_same_state_value(tl.source, c, start as int);
        assert forall|i: int, t: int| 0 <= i < from_timeline.len() && #[trigger] from_timeline[i].window.has(t) implies from_timeline[i].capacity
            == f(t) by {
            lemma_segmentation_order(from_timeline, start as int, end as int);
            lemma_step_agrees(tl.states@, tl.window.start as int, tl.window.end as int, |t: int| query_value(tl.source, tl.window.start as int, t), t);
        }
        law_state_windows_unique(from_timeline, from_calendar, start as int, end as int, f);
    } else {
        let f = |t: int| win_capacity(c, t);
        assert forall|i: int, t: int| 0 <= i < from_timeline.len() && #[trigger] from_timeline[i].window.has(t) implies from_timeline[i].capacity
            == f(t) by {
            lemma_segmentation_order(from_timeline, start as int, end as int);
            lemma_step_agrees(tl.states@, tl.window.start as int, tl.window.end as int, |t: int| win_capacity(tl.source, t), t);
            assert(win_opened(tl.source, t) == win_opened(c, t));
            assert(win_closed(tl.source, t) == win_closed(c, t));
        }
        law_state_windows_unique(from_timeline, from_calendar, start as int, end as int, f);
    }
}

/// Merging is idempotent: merging the merged windows of a list gives them back
/// unchanged, since both merges give the one canonical form of the same instants.
pub proof fn law_merge_idempotent(windows: Seq<Window>, once: Seq<Window>, twice: Seq<Window>)
    requires
        canonical(once),
        same_instants(once, windows),
        canonical(twice),
        same_instants(twice, once),
    ensures
        twice == once,
{
    lemma_canonical_unique(twice, once);
}

/// Open and unavailable windows split a range: each instant lies in exactly
/// one of the two.
pub proof fn law_open_unavailable_partition(c: Calendar, start: i64, end: i64, open: Seq<Window>, unavailable: Seq<Window>)
    requires
        windows_at_level(c, start, end, 1, open),
        windows_unavailable(c, start, end, unavailable),
    ensures
        forall|t: int| start <= t < end ==> (#[trigger] covers_at(open, t) != covers_at(unavailable, t)),
{
    assert forall|t: int| start <= t < end implies (#[trigger] covers_at(open, t) != covers_at(unavailable, t)) by {
        assert(covers_at(open, t) <==> query_value(c, start as int, t) >= 1);
        assert(covers_at(unavailable, t) <==> query_value(c, start as int, t) <= 0);
    }
}

/// Working time adds up over adjacent ranges: the working duration of
/// `[a, b)` is that of `[a, m)` plus that of `[m, b)`, wherever the working
/// duration is computed exactly.
pub proof fn law_working_duration_additive(c: Calendar, a: int, m: int, b: int, first: int, second: int, whole: int)
    requires
        exact_range(c, a, b),
        a <= m <= b,
        forall|p: spec_fn(int) -> bool| exact_open(c, a, m, p) ==> first == count_where(a, m, p),
        forall|p: spec_fn(int) -> bool| exact_open(c, m, b, p) ==> second == count_where(m, b, p),
        forall|p: spec_fn(int) -> bool| exact_open(c, a, b, p) ==> whole == count_where(a, b, p),
    ensures
        whole == first + second,
{
    let p = work_pred(c, a, b);
    if core_range(a, b) {
        assert(core_range(a, m) && core_range(m, b));
    }
    assert(exact_open(c, a, m, p));
    assert(exact_open(c, m, b, p));
    assert(exact_open(c, a, b, p));
    lemma_count_split(a, m, b, p);
}

/// Adding working time and then measuring it agree: the working duration
/// from `start` to the instant that adding `duration` of working time reaches
/// is `duration`, wherever the working predicate is computed exactly.
pub proof fn law_add_then_measure(c: Calendar, start: int, duration: int, until: int, reached: int, measured: int)
    requires
        wf(c),
        exact_range(c, start, until),
        reaches(start, reached, duration, chunk_pred(c, start)),
        reached <= until,
        measured == count_where(start, reached, |t: int| query_value(c, start, t) >= 1),
    ensures
        measured == duration,
{
    let p = work_pred(c, start, until);
    assert forall|t: int| start <= t < reached implies #[trigger] chunk_pred(c, start)(t) == p(t) by {
        lemma_chunk_pred_exact(c, start, until, t);
    }
    assert forall|t: int| start <= t < reached implies (query_value(c, start, t) >= 1) == #[trigger] p(t) by {
        lemma_query_pred_exact(c, start, until, t);
    }
    lemma_count_same(start, reached, chunk_pred(c, start), p);
    lemma_count_same(start, reached, |t: int| query_value(c, start, t) >= 1, p);
}

/// A trace consumes exactly the requested working time: its steps add up to
/// the requested duration.
pub proof fn law_trace_consumes_request(
    steps: Seq<WorkingTimeTraceStep>,
    start: int,
    result: int,
    duration: int,
    p: spec_fn(int) -> bool,
)
    requires
        steps_well_formed(steps),
        steps_cover(steps, start, result, p),
        reaches(start, result, duration, p),
    ensures
        steps_total(steps) == duration,
{
    lemma_steps_total_count(steps, start, result, p);
}

/// The running minimum over components: zero once one is zero, else the
/// smallest capacity, starting from `i32::MAX`.
proof fn lemma_components_min_value(cs: Seq<Calendar>, t: int, n: int)
    requires
        0 <= n <= cs.len(),
        forall|i: int| 0 <= i < cs.len() ==> wf(#[trigger] cs[i]),
    ensures
        (exists|i: int| 0 <= i < n && capacity_at(#[trigger] cs[i], t) == 0) ==> components_min(cs, t, n) == 0,
        (forall|i: int| 0 <= i < n ==> capacity_at(#[trigger] cs[i], t) > 0) ==> {
            &&& forall|i: int| 0 <= i < n ==> components_min(cs, t, n) <= capacity_at(#[trigger] cs[i], t)
            &&& n > 0 ==> exists|i: int| 0 <= i < n && components_min(cs, t, n) == capacity_at(#[trigger] cs[i], t)
            &&& n == 0 ==> components_min(cs, t, n) == i32::MAX
        },
    decreases n,
{
    if n > 0 {
        lemma_components_min_value(cs, t, n - 1);
        lemma_capacity_bounds(cs[n - 1], t);
        let prev = components_min(cs, t, n - 1);
        if exists|i: int| 0 <= i < n && capacity_at(#[trigger] cs[i], t) == 0 {
            let i = choose|i: int| 0 <= i < n && capacity_at(#[trigger] cs[i], t) == 0;
            if i < n - 1 {
                assert(prev == 0);
            }
        }
        if forall|i: int| 0 <= i < n ==> capacity_at(#[trigger] cs[i], t) > 0 {
            assert(capacity_at(cs[n - 1], t) > 0);
            if n - 1 > 0 {
                let j = choose|j: int| 0 <= j < n - 1 && prev == capacity_at(#[trigger] cs[j], t);
                assert(prev > 0);
            }
            if capacity_at(cs[n - 1], t) < prev {
                assert(components_min(cs, t, n) == capacity_at(cs[n - 1], t));
            } else {
                assert(components_min(cs, t, n) == prev);
                if n - 1 == 0 {
                    assert(prev == i32::MAX);
                    assert(capacity_at(cs[0], t) == i32::MAX);
                }
            }
        }
    }
}

/// The capacity of an intersection of calendars: zero where some component
/// has none, else the smallest capacity of the components, unless every
/// component has the capacity `i32::MAX`, where it is zero.
pub proof fn law_intersection_capacity(c: Calendar, t: int)
    requires
        wf(c),
        composite(c),
    ensures
        (exists|i: int| 0 <= i < c.components@.len() && capacity_at(#[trigger] c.components@[i], t) == 0) ==> capacity_at(c, t) == 0,
        (forall|i: int| 0 <= i < c.components@.len() ==> capacity_at(#[trigger] c.components@[i], t) > 0)
            && (exists|i: int| 0 <= i < c.components@.len() && capacity_at(#[trigger] c.components@[i], t) < i32::MAX) ==> {
            &&& forall|i: int| 0 <= i < c.components@.len() ==> capacity_at(c, t) <= capacity_at(#[trigger] c.components@[i], t)
            &&& exists|i: int| 0 <= i < c.components@.len() && capacity_at(c, t) == capacity_at(#[trigger] c.components@[i], t)
        },
{
    let cs = c.components@;
    lemma_components_min_value(cs, t, cs.len() as int);
    if (forall|i: int| 0 <= i < cs.len() ==> capacity_at(#[trigger] cs[i], t) > 0) && (exists|i: int| 0 <= i < cs.len()
        && capacity_at(#[trigger] cs[i], t) < i32::MAX) {
        let k = choose|i: int| 0 <= i < cs.len() && capacity_at(#[trigger] cs[i], t) < i32::MAX;
        assert(components_min(cs, t, cs.len() as int) <= capacity_at(cs[k], t));
    }
}

/// The entry found by looking up `id`, as `GetEntry` finds it.
pub open spec fn entry_lookup(es: Seq<Entry>, id: Seq<char>) -> Option<Entry> {
    let p = position_of(es, id);
    if p >= 0 {
        Some(es[p])
    } else {
        None
    }
}

/// With distinct ids, the entry holding an id is the one its lookup finds.
proof fn lemma_unique_position(es: Seq<Entry>, id: Seq<char>, k: int)
    requires
        distinct_ids(es),
        0 <= k < es.len(),
        es[k].id@ == id,
    ensures
        position_of(es, id) == k,
{
    lemma_position_of(es, id);
    let p = position_of(es, id);
    if p != k {
        assert(p >= 0);
        if p < k {
            assert(es[p].id@ != es[k].id@);
        }
    }
}

/// Two lists with the same ids at the same places look up each id at the same place.
proof fn lemma_same_ids_position(a: Seq<Entry>, b: Seq<Entry>, id: Seq<char>)
    requires
        a.len() == b.len(),
        forall|i: int| 0 <= i < a.len() ==> (#[trigger] a[i]).id@ == b[i].id@,
    ensures
        position_of(a, id) == position_of(b, id),
    decreases a.len(),
{
    if a.len() > 0 {
        assert forall|i: int| 0 <= i < a.len() - 1 implies (#[trigger] a.drop_last()[i]).id@ == b.drop_last()[i].id@ by {
            assert(a.drop_last()[i] == a[i] && b.drop_last()[i] == b[i]);
        }
        lemma_same_ids_position(a.drop_last(), b.drop_last(), id);
        assert(a.last() == a[a.len() - 1] && b.last() == b[b.len() - 1]);
    }
}

/// Setting an entry and then looking up its id finds that entry; every other
/// id finds what it found before, and ids stay distinct.
pub proof fn law_set_entry_then_get(es: Seq<Entry>, e: Entry)
    requires
        distinct_ids(es),
    ensures
        distinct_ids(entries_with(es, e)),
        entry_lookup(entries_with(es, e), e.id@) == Some(e),
        forall|id: Seq<char>| id != e.id@ ==> #[trigger] entry_lookup(entries_with(es, e), id) == entry_lookup(es, id),
{
    lemma_position_of(es, e.id@);
    let p = position_of(es, e.id@);
    let es2 = entries_with(es, e);
    if p >= 0 {
        assert(es2 == es.update(p, e));
        assert forall|i: int, j: int| 0 <= i < j < es2.len() implies (#[trigger] es2[i]).id@ != (#[trigger] es2[j]).id@ by {
            if i == p {
                assert(es[j].id@ != es[p].id@);
            } else if j == p {
                assert(es[i].id@ != es[p].id@);
            }
        }
        lemma_unique_position(es2, e.id@, p);
        assert forall|id: Seq<char>| id != e.id@ implies #[trigger] entry_lookup(es2, id) == entry_lookup(es, id) by {
            assert forall|i: int| 0 <= i < es.len() implies (#[trigger] es2[i]).id@ == es[i].id@ by {
                if i == p {
                    assert(es[p].id@ == e.id@);
                }
            }
            lemma_same_ids_position(es2, es, id);
            lemma_position_of(es, id);
            let q = position_of(es, id);
            if q >= 0 {
                assert(q != p);
            }
        }
    } else {
        assert(es2 == es.push(e));
        assert forall|i: int, j: int| 0 <= i < j < es2.len() implies (#[trigger] es2[i]).id@ != (#[trigger] es2[j]).id@ by {
            if j == es.len() {
                assert(es2[i] == es[i]);
            } else {
                assert(es2[i] == es[i] && es2[j] == es[j]);
            }
        }
        lemma_unique_position(es2, e.id@, es.len() as int);
        assert forall|id: Seq<char>| id != e.id@ implies #[trigger] entry_lookup(es2, id) == entry_lookup(es, id) by {
            assert(es2.drop_last() =~= es);
            assert(es2.last() == e);
            assert(position_of(es2, id) == position_of(es, id));
            lemma_position_of(es, id);
            let q = position_of(es, id);
            if q >= 0 {
                assert(es2[q] == es[q]);
            }
        }
    }
}

/// Removing the entry with an id and then looking the id up finds nothing;
/// every other id finds what it found before, and ids stay distinct.
pub proof fn law_remove_entry_then_get(es: Seq<Entry>, id: Seq<char>)
    requires
        distinct_ids(es),
    ensures
        ({
            let es2 = if position_of(es, id) >= 0 { es.remove(position_of(es, id)) } else { es };
            &&& distinct_ids(es2)
            &&& entry_lookup(es2, id) is None
            &&& forall|other: Seq<char>| other != id ==> #[trigger] entry_lookup(es2, other) == entry_lookup(es, other)
        }),
{
    lemma_position_of(es, id);
    let p = position_of(es, id);
    if p >= 0 {
        let es2 = es.remove(p);
        assert forall|i: int, j: int| 0 <= i < j < es2.len() implies (#[trigger] es2[i]).id@ != (#[trigger] es2[j]).id@ by {
            let bi = if i < p { i } else { i + 1 };
            let bj = if j < p { j } else { j + 1 };
            assert(es2[i] == es[bi] && es2[j] == es[bj]);
        }
        lemma_position_of(es2, id);
        if position_of(es2, id) >= 0 {
            let k = position_of(es2, id);
            let bk = if k < p { k } else { k + 1 };
            assert(es2[k] == es[bk]);
            assert(es[bk].id@ == es[p].id@);
        }
        assert forall|other: Seq<char>| other != id implies #[trigger] entry_lookup(es2, other) == entry_lookup(es, other) by {
            lemma_position_of(es, other);
            lemma_position_of(es2, other);
            let q = position_of(es, other);
            let q2 = position_of(es2, other);
            if q >= 0 {
                assert(q != p);
                let k = if q < p { q } else { q - 1 };
                assert(es2[k] == es[q]);
                lemma_unique_position(es2, other, k);
            } else if q2 >= 0 {
                let bk = if q2 < p { q2 } else { q2 + 1 };
                assert(es2[q2] == es[bk]);
            }
        }
    }
}

/// There is at most one maximal run of `f` holding `instant` in `[a, b)`.
proof fn lemma_constant_run_unique(f: spec_fn(int) -> int, a: int, b: int, instant: int, w1: Window, w2: Window)
    requires
        constant_run(f, a, b, instant, w1),
        constant_run(f, a, b, instant, w2),
    ensures
        w1 == w2,
{
    if w1.start < w2.start {
        assert(f(w2.start - 1) == f(instant));
    }
    if w2.start < w1.start {
        assert(f(w1.start - 1) == f(instant));
    }
    if w1.end < w2.end {
        assert(f(w1.end as int) == f(instant));
    }
    if w2.end < w1.end {
        assert(f(w2.end as int) == f(instant));
    }
}

/// The state window found around an instant is determined by the calendar,
/// the instant, the radius and whether it was asked for open time.
proof fn lemma_current_window_unique(c: Calendar, instant: int, radius: Option<i128>, can_work: bool, w1: Option<Window>, w2: Option<Window>)
    requires
        current_window_found(c, instant, radius, can_work, w1),
        current_window_found(c, instant, radius, can_work, w2),
    ensures
        w1 == w2,
{
    let q = around(instant, radius);
    let f = cap_fn(c, q.start as int, q.end as int);
    if w1 is Some && w2 is Some {
        lemma_constant_run_unique(f, q.start as int, q.end as int, instant, w1->0, w2->0);
    }
}

/// The transitions found around an instant are determined by the calendar,
/// the instant and the radius.
proof fn lemma_transitions_unique(c: Calendar, instant: int, radius: Option<i128>, p1: Option<i64>, p2: Option<i64>, n1: Option<i64>, n2: Option<i64>)
    requires
        previous_transition_found(c, instant, radius, p1),
        previous_transition_found(c, instant, radius, p2),
        next_transition_found(c, instant, radius, n1),
        next_transition_found(c, instant, radius, n2),
    ensures
        p1 == p2,
        n1 == n2,
{
    let q = around(instant, radius);
    let f = cap_fn(c, q.start as int, q.end as int);
    match (p1, p2) {
        (Some(x), Some(y)) => {
            if x < y {
                assert(change_at(f, y as int));
            }
            if y < x {
                assert(change_at(f, x as int));
            }
        },
        (Some(x), None) => {
            assert(change_at(f, x as int));
        },
        (None, Some(y)) => {
            assert(change_at(f, y as int));
        },
        (None, None) => {},
    }
    match (n1, n2) {
        (Some(x), Some(y)) => {
            if x < y {
                assert(change_at(f, x as int));
            }
            if y < x {
                assert(change_at(f, y as int));
            }
        },
        (Some(x), None) => {
            assert(change_at(f, x as int));
        },
        (None, Some(y)) => {
            assert(change_at(f, y as int));
        },
        (None, None) => {},
    }
}

/// The matches found at an instant are determined by the calendar, the
/// instant and the radius.
proof fn lemma_windows_found_unique(c: Calendar, instant: int, radius: Option<i128>, m1: Seq<WindowMatch>, m2: Seq<WindowMatch>)
    requires
        windows_found(c, instant, radius, m1),
        windows_found(c, instant, radius, m2),
    ensures
        m1 == m2,
{
    let q = around(instant, radius);
    let f = cap_fn(c, q.start as int, q.end as int);
    let raw = raw_matches(c, instant);
    if m1 != raw {
        assert(m2 != raw);
        lemma_constant_run_unique(f, q.start as int, q.end as int, instant, m1[0].window, m2[0].window);
        assert(m1[0] == m2[0]);
        assert(m1 =~= seq![m1[0]] + m1.drop_first());
        assert(m2 =~= seq![m2[0]] + m2.drop_first());
    }
}

/// An instant analysis says what the separate queries say: its capacity, its
/// current window (the open one when the capacity is positive, else the
/// unavailable one), its transitions and its matches are those that
/// `get_capacity_at`, `get_current_open_window` or
/// `get_current_unavailable_window`, the transition queries and
/// `get_windows_at` give for the same instant and radius.
pub proof fn law_instant_analysis_agrees(
    c: Calendar,
    instant: i64,
    radius: Option<i128>,
    analysis: TimeGridInstantAnalysis,
    capacity: i32,
    open_window: Option<Window>,
    unavailable_window: Option<Window>,
    previous: Option<i64>,
    next: Option<i64>,
    matches: Seq<WindowMatch>,
)
    requires
        analysis.instant == instant,
        analysis.capacity == capacity_at(c, instant as int),
        current_window_found(c, instant as int, radius, analysis.capacity > 0, analysis.current_window),
        previous_transition_found(c, instant as int, radius, analysis.previous_transition),
        next_transition_found(c, instant as int, radius, analysis.next_transition),
        windows_found(c, instant as int, radius, analysis.matches@),
        capacity == capacity_at(c, instant as int),
        current_window_found(c, instant as int, radius, true, open_window),
        current_window_found(c, instant as int, radius, false, unavailable_window),
        previous_transition_found(c, instant as int, radius, previous),
        next_transition_found(c, instant as int, radius, next),
        windows_found(c, instant as int, radius, matches),
    ensures
        analysis.capacity == capacity,
        analysis.current_window == (if capacity > 0 { open_window } else { unavailable_window }),
        analysis.previous_transition == previous,
        analysis.next_transition == next,
        analysis.matches@ == matches,
{
    if capacity > 0 {
        lemma_current_window_unique(c, instant as int, radius, true, analysis.current_window, open_window);
    } else {
        lemma_current_window_unique(c, instant as int, radius, false, analysis.current_window, unavailable_window);
    }
    lemma_transitions_unique(c, instant as int, radius, analysis.previous_transition, previous, analysis.next_transition, next);
    lemma_windows_found_unique(c, instant as int, radius, analysis.matches@, matches);
}

/// A compiled timeline finds the same first slot as its calendar: searching the
/// timeline from `start` up to `search_until` (its end by default) gives what
/// searching the calendar up to that same instant gives, errors included,
/// wherever both compute the capacity exactly.
pub proof fn law_timeline_slot_agrees(
    tl: TimeGridTimeline,
    c: Calendar,
    start: i64,
    duration: i128,
    minimum_capacity: i32,
    search_until: Option<i64>,
    from_timeline: Result<Option<Window>, TimeGridError>,
    from_calendar: Result<Option<Window>, TimeGridError>,
)
    requires
        timeline_wf(tl),
        same_calendar(tl.source, c),
        core_range(tl.window.start as int, tl.window.end as int) || !composite(c),
        tl.window.start <= start <= slot_end(tl, search_until) <= tl.window.end,
        timeline_slot_found(tl, start, duration, minimum_capacity, search_until, from_timeline),
        slot_found(c, start, duration, minimum_capacity, Some(slot_end(tl, search_until) as i64), from_calendar),
    ensures
        from_timeline == from_calendar,
{
    lemma_same_calendar(tl.source, c);
    let u = slot_end(tl, search_until);
    let m = minimum_capacity as int;
    let d = duration as int;
    assert(search_end(start as int, Some(u as i64)) == u);
    let q1 = timeline_level(tl, m);
    let q2 = level_pred(c, start as int, u, m);
    assert forall|t: int| start <= t < u implies #[trigger] q1(t) == q2(t) by {
        if core_range(tl.window.start as int, tl.window.end as int) {
            lemma_step_agrees(tl.states@, tl.window.start as int, tl.window.end as int, |t: int| capacity_at(tl.source, t), t);
            assert(core_range(start as int, u));
        } else {
            lemma_step_agrees(tl.states@, tl.window.start as int, tl.window.end as int, |t: int| win_capacity(tl.source, t), t);
            assert(win_opened(tl.source, t) == win_opened(c, t));
            assert(win_closed(tl.source, t) == win_closed(c, t));
            assert(win_capacity(tl.source, t) == win_capacity(c, t));
            if core_range(start as int, u) {
                crate::states::lemma_win_capacity_core(c, t);
            }
        }
    }
    if duration >= 0 && minimum_capacity > 0 {
        assert(exact_range(c, start as int, u));
        assert(from_timeline is Ok && from_calendar is Ok);
        if duration == 0 {
            match (from_timeline, from_calendar) {
                (Ok(Some(w1)), Ok(Some(w2))) => {
                    if w1.start < w2.start {
                        assert(q1(w1.start as int) == q2(w1.start as int));
                    }
                    if w2.start < w1.start {
                        assert(q1(w2.start as int) == q2(w2.start as int));
                    }
                    assert(w1.start == w2.start);
                    assert(w1 == w2);
                },
                (Ok(Some(w1)), Ok(None)) => {
                    assert(q1(w1.start as int) == q2(w1.start as int));
                },
                (Ok(None), Ok(Some(w2))) => {
                    assert(q1(w2.start as int) == q2(w2.start as int));
                },
                _ => {},
            }
        } else {
            match (from_timeline, from_calendar) {
                (Ok(Some(w1)), Ok(Some(w2))) => {
                    if w1.start < w2.start {
                        assert(slot_at(w1.start as int, d, q2)) by {
                            assert forall|t: int| w1.start <= t < w1.start + d implies #[trigger] q2(t) by {
                                assert(q1(t));
                            }
                        }
                    }
                    if w2.start < w1.start {
                        assert(slot_at(w2.start as int, d, q1)) by {
                            assert forall|t: int| w2.start <= t < w2.start + d implies #[trigger] q1(t) by {
                                assert(q2(t));
                            }
                        }
                    }
                    assert(w1.start == w2.start);
                    assert(w1 == w2);
                },
                (Ok(Some(w1)), Ok(None)) => {
                    assert(slot_at(w1.start as int, d, q2)) by {
                        assert forall|t: int| w1.start <= t < w1.start + d implies #[trigger] q2(t) by {
                            assert(q1(t));
                        }
                    }
                },
                (Ok(None), Ok(Some(w2))) => {
                    assert(slot_at(w2.start as int, d, q1)) by {
                        assert forall|t: int| w2.start <= t < w2.start + d implies #[trigger] q1(t) by {
                            assert(q2(t));
                        }
                    }
                },
                _ => {},
            }
        }
    }
}

/// The state windows of a calendar with components change only where a
/// component's state does: every boundary between two of them is a cut, an
/// instant at which some component's state value changes.
pub proof fn law_composite_boundaries_are_cuts(c: Calendar, start: i64, end: i64, s: Seq<StateWindow>, i: int)
    requires
        composite(c),
        states_of(c, start, end, s),
        0 < i < s.len(),
    ensures
        crate::states::cut_at(c, start as int, s[i].window.start as int),
{
    let p = s[i].window.start as int;
    assert(s[i - 1].window.end == p);
    assert(s[i - 1].window.has(p - 1));
    assert(s[i].window.has(p));
    assert(s[i - 1].capacity == query_value(c, start as int, p - 1));
    assert(s[i].capacity == query_value(c, start as int, p));
    lemma_segmentation_order(s, start as int, end as int);
    if !crate::states::cut_at(c, start as int, p) {
        assert(p > start);
        assert(crate::states::last_cut(c, start as int, p) == crate::states::last_cut(c, start as int, p - 1));
    }
}

/// From chunk `i` on, some chunk holds the whole span `[a, a + span)`.
proof fn lemma_chunks_cover_from(chunks: Seq<Window>, start: int, until: int, span: int, a: int, i: int)
    requires
        chunk_chain(chunks, start, until, span),
        span >= 0,
        0 <= i < chunks.len(),
        chunks[i].start <= a,
        a + span <= until,
    ensures
        exists|k: int| 0 <= k < chunks.len() && (#[trigger] chunks[k]).start <= a && a + span <= chunks[k].end,
    decreases chunks.len() - i,
{
    if i == chunks.len() - 1 {
        assert(chunks.last() == chunks[i]);
        assert(chunks[i].start <= a && a + span <= chunks[i].end);
    } else if chunks[i + 1].start <= a {
        lemma_chunks_cover_from(chunks, start, until, span, a, i + 1);
    } else {
        let c = chunks[i].start as int;
        assert(chunks[i + 1].start == next_cursor(c, until, span));
        assert(chunks[i].end == chunk_end(c, until, span));
        assert(a + span <= chunks[i].end);
    }
}

/// The chunks of a slot search leave no span out: every span of `span` inside
/// `[start, until)` lies whole inside one chunk, so a slot is never missed for
/// crossing from one chunk into the next.
pub proof fn law_search_chunks_cover(chunks: Seq<Window>, start: int, until: int, span: int, a: int)
    requires
        chunk_chain(chunks, start, until, span),
        span >= 0,
        start < until,
        start <= a,
        a + span <= until,
    ensures
        exists|k: int| 0 <= k < chunks.len() && (#[trigger] chunks[k]).start <= a && a + span <= chunks[k].end,
{
    lemma_chunks_cover_from(chunks, start, until, span, a, 0);
}

/// Tracing working time ends where adding it does: on the same request the
/// trace succeeds exactly when the addition does, and its result is the
/// instant the addition reaches.
pub proof fn law_trace_agrees_with_add(
    c: Calendar,
    start: i64,
    duration: i128,
    search_until: Option<i64>,
    traced: Result<crate::search::WorkingTimeTrace, TimeGridError>,
    added: Result<i64, TimeGridError>,
)
    requires
        crate::search::work_traced(c, start, duration, search_until, traced),
        crate::search::work_added(c, start, duration, search_until, added),
    ensures
        traced is Ok <==> added is Ok,
        traced matches Ok(tr) ==> added == Ok::<i64, TimeGridError>(tr.result),
        traced matches Err(e) ==> added == Err::<i64, TimeGridError>(e),
{
    if duration > 0 {
        let p = chunk_pred(c, start as int);
        if let (Ok(tr), Ok(x)) = (traced, added) {
            if (tr.result as int) < (x as int) {
                assert(count_where(start as int, tr.result as int, p) < duration);
            }
            if (x as int) < (tr.result as int) {
                assert(count_where(start as int, x as int, p) < duration);
            }
        }
    }
}

/// Two well-formed step lists holding the same instants, all working and before
/// `last`, whose steps are cut only where they must be, are equal.
proof fn lemma_cut_steps_unique(
    a: Seq<WorkingTimeTraceStep>,
    b: Seq<WorkingTimeTraceStep>,
    start: int,
    last: int,
    p: spec_fn(int) -> bool,
)
    requires
        steps_well_formed(a),
        steps_well_formed(b),
        steps_cut(a, start, last, p),
        steps_cut(b, start, last, p),
        forall|t: int| #![trigger steps_have(a, t)] #![trigger steps_have(b, t)] steps_have(a, t) == steps_have(b, t),
        forall|t: int| steps_have(a, t) ==> p(t) && t < last,
    ensures
        a == b,
    decreases a.len(),
{
    if a.len() == 0 || b.len() == 0 {
        if a.len() > 0 {
            assert(a[0].window.has(a[0].window.start as int));
            assert(steps_have(a, a[0].window.start as int));
        }
        if b.len() > 0 {
            assert(b[0].window.has(b[0].window.start as int));
            assert(steps_have(b, b[0].window.start as int));
        }
        assert(a =~= b);
    } else {
        let x = a[0].window;
        let y = b[0].window;
        assert(a[0].window.has(x.start as int) && steps_have(a, x.start as int));
        assert(b[0].window.has(y.start as int) && steps_have(b, y.start as int));
        if x.start < y.start {
            let m = choose|m: int| 0 <= m < b.len() && (#[trigger] b[m]).window.has(x.start as int);
            if m > 0 {
                assert(b[0].window.end <= b[m].window.start);
            }
        }
        if y.start < x.start {
            let m = choose|m: int| 0 <= m < a.len() && (#[trigger] a[m]).window.has(y.start as int);
            if m > 0 {
                assert(a[0].window.end <= a[m].window.start);
            }
        }
        assert(x.start == y.start);
        assert(step_cut(x, start, last, p));
        assert(step_cut(y, start, last, p));
        if x.end < y.end {
            assert(b[0].window.has(x.end as int));
            assert(steps_have(b, x.end as int));
            assert(chunk_of(start, x.end as int) != x.end);
        }
        if y.end < x.end {
            assert(a[0].window.has(y.end as int));
            assert(steps_have(a, y.end as int));
            assert(chunk_of(start, y.end as int) != y.end);
        }
        assert(x == y);
        assert(a[0] == b[0]);
        let ta = a.drop_first();
        let tb = b.drop_first();
        assert forall|t: int| #[trigger] steps_have(ta, t) <==> (steps_have(a, t) && !x.has(t)) by {
            if steps_have(ta, t) {
                let i = choose|i: int| 0 <= i < ta.len() && (#[trigger] ta[i]).window.has(t);
                assert(ta[i] == a[i + 1]);
                assert(a[0].window.end <= a[i + 1].window.start);
            }
            if steps_have(a, t) && !x.has(t) {
                let i = choose|i: int| 0 <= i < a.len() && (#[trigger] a[i]).window.has(t);
                assert(ta[i - 1] == a[i]);
            }
        }
        assert forall|t: int| #[trigger] steps_have(tb, t) <==> (steps_have(b, t) && !y.has(t)) by {
            if steps_have(tb, t) {
                let i = choose|i: int| 0 <= i < tb.len() && (#[trigger] tb[i]).window.has(t);
                assert(tb[i] == b[i + 1]);
                assert(b[0].window.end <= b[i + 1].window.start);
            }
            if steps_have(b, t) && !y.has(t) {
                let i = choose|i: int| 0 <= i < b.len() && (#[trigger] b[i]).window.has(t);
                assert(tb[i - 1] == b[i]);
            }
        }
        assert(steps_well_formed(ta)) by {
            assert forall|i: int, j: int| 0 <= i < j < ta.len() implies (#[trigger] ta[i]).window.end <= (#[trigger] ta[j]).window.start by {
                assert(ta[i] == a[i + 1] && ta[j] == a[j + 1]);
            }
        }
        assert(steps_well_formed(tb)) by {
            assert forall|i: int, j: int| 0 <= i < j < tb.len() implies (#[trigger] tb[i]).window.end <= (#[trigger] tb[j]).window.start by {
                assert(tb[i] == b[i + 1] && tb[j] == b[j + 1]);
            }
        }
        assert forall|t: int| steps_have(ta, t) == steps_have(tb, t) by {
            assert(steps_have(a, t) == steps_have(b, t));
        }
        lemma_cut_steps_unique(ta, tb, start, last, p);
        assert(a =~= seq![a[0]] + ta);
        assert(b =~= seq![b[0]] + tb);
    }
}

/// The steps of a trace are fixed by what it covers: two step lists that hold
/// exactly the working instants from `start` up to the result, each step cut
/// only at a chunk start, where working time stops or at the result, are equal.
pub proof fn law_trace_steps_determined(
    a: Seq<WorkingTimeTraceStep>,
    b: Seq<WorkingTimeTraceStep>,
    start: int,
    result: int,
    p: spec_fn(int) -> bool,
)
    requires
        steps_well_formed(a),
        steps_well_formed(b),
        steps_cover(a, start, result, p),
        steps_cover(b, start, result, p),
        steps_cut(a, start, result, p),
        steps_cut(b, start, result, p),
    ensures
        a == b,
{
    assert forall|t: int| steps_have(a, t) == steps_have(b, t) by {
        assert(steps_have(a, t) <==> (start <= t < result && p(t)));
        assert(steps_have(b, t) <==> (start <= t < result && p(t)));
    }
    lemma_cut_steps_unique(a, b, start, result, p);
}

/// What a successful trace of positive working time holds: its steps add up to
/// the request, are in order, each a non-empty window as long as its duration,
/// none before the start; the last ends at the result; and away from the edges
/// of time every instant of a step has capacity.
pub proof fn law_trace_shape(c: Calendar, start: i64, duration: i128, search_until: Option<i64>, tr: crate::search::WorkingTimeTrace)
    requires
        wf(c),
        duration > 0,
        crate::search::work_traced(c, start, duration, search_until, Ok::<crate::search::WorkingTimeTrace, TimeGridError>(tr)),
    ensures
        tr.start == start,
        tr.requested_duration == duration,
        steps_total(tr.steps@) == duration,
        steps_well_formed(tr.steps@),
        forall|i: int| 0 <= i < tr.steps@.len() ==> start <= (#[trigger] tr.steps@[i]).window.start,
        tr.steps@.len() > 0,
        tr.steps@.last().window.end == tr.result,
        core_range(start as int, search_end(start as int, search_until)) ==> forall|i: int, t: int|
            0 <= i < tr.steps@.len() && #[trigger] tr.steps@[i].window.has(t) ==> capacity_at(c, t) >= 1,
{
    let u = search_end(start as int, search_until);
    let p = chunk_pred(c, start as int);
    let r = tr.result as int;
    law_trace_consumes_request(tr.steps@, start as int, r, duration as int, p);
    // the instant just before the result is working, so some step holds it
    assert(count_where(start as int, r - 1, p) < duration);
    if !p(r - 1) {
        crate::measure::lemma_count_none(r - 1, r, p);
        lemma_count_split(start as int, r - 1, r, p);
    }
    assert(steps_have(tr.steps@, r - 1));
    let m = choose|m: int| 0 <= m < tr.steps@.len() && (#[trigger] tr.steps@[m]).window.has(r - 1);
    let n = tr.steps@.len() - 1;
    if m < n {
        assert(tr.steps@[m].window.end <= tr.steps@[n].window.start);
        assert(tr.steps@[n].window.start < tr.steps@[n].window.end);
    }
    assert(tr.steps@.last() == tr.steps@[n]);
    if core_range(start as int, u) {
        assert forall|i: int, t: int| 0 <= i < tr.steps@.len() && #[trigger] tr.steps@[i].window.has(t) implies capacity_at(c, t) >= 1 by {
            assert(steps_have(tr.steps@, t));
            lemma_chunk_pred_exact(c, start as int, u, t);
        }
    }
}

/// Without a search end, working time is searched for five years of 366 days
/// (1830 days) after the start: adding working time with no end gives what
/// adding it with an explicit end 1830 days after the start gives.
pub proof fn law_add_default_search_is_five_years(
    c: Calendar,
    start: i64,
    duration: i128,
    until: i64,
    by_default: Result<i64, TimeGridError>,
    explicit: Result<i64, TimeGridError>,
)
    requires
        until == start + 1830 * 86_400_000_000,
        crate::search::work_added(c, start, duration, None, by_default),
        crate::search::work_added(c, start, duration, Some(until), explicit),
    ensures
        by_default == explicit,
{
    assert(search_end(start as int, None) == until as int);
    if duration > 0 {
        let p = chunk_pred(c, start as int);
        if let (Ok(x), Ok(y)) = (by_default, explicit) {
            if (x as int) < (y as int) {
                assert(count_where(start as int, x as int, p) < duration);
            }
            if (y as int) < (x as int) {
                assert(count_where(start as int, y as int, p) < duration);
            }
        }
    }
}

/// Tracing working time with no search end searches the same 1830 days: it
/// reaches the same instant through the same steps as a trace with an explicit
/// end 1830 days after the start, and fails exactly when that one does.
pub proof fn law_trace_default_search_is_five_years(
    c: Calendar,
    start: i64,
    duration: i128,
    until: i64,
    by_default: Result<crate::search::WorkingTimeTrace, TimeGridError>,
    explicit: Result<crate::search::WorkingTimeTrace, TimeGridError>,
)
    requires
        until == start + 1830 * 86_400_000_000,
        crate::search::work_traced(c, start, duration, None, by_default),
        crate::search::work_traced(c, start, duration, Some(until), explicit),
    ensures
        by_default is Ok <==> explicit is Ok,
        by_default matches Err(e) ==> explicit == Err::<crate::search::WorkingTimeTrace, TimeGridError>(e),
        by_default matches Ok(a) ==> (explicit matches Ok(b) && a.result == b.result && a.steps@ == b.steps@
            && a.start == b.start && a.requested_duration == b.requested_duration),
{
    assert(search_end(start as int, None) == until as int);
    if duration > 0 {
        let p = chunk_pred(c, start as int);
        if let (Ok(a), Ok(b)) = (by_default, explicit) {
            if (a.result as int) < (b.result as int) {
                assert(count_where(start as int, a.result as int, p) < duration);
            }
            if (b.result as int) < (a.result as int) {
                assert(count_where(start as int, b.result as int, p) < duration);
            }
            law_trace_steps_determined(a.steps@, b.steps@, start as int, a.result as int, p);
        }
    }
}

/// Looking for the next open instant with no search end looks 1830 days ahead,
/// as a search with an explicit end 1830 days after the start does.
pub proof fn law_next_open_default_search_is_five_years(
    c: Calendar,
    start: i64,
    until: i64,
    by_default: Result<Option<i64>, TimeGridError>,
    explicit: Result<Option<i64>, TimeGridError>,
)
    requires
        until == start + 1830 * 86_400_000_000,
        crate::search::next_open_found(c, start, None, by_default),
        crate::search::next_open_found(c, start, Some(until), explicit),
    ensures
        by_default == explicit,
{
    assert(search_end(start as int, None) == until as int);
    let p = chunk_pred(c, start as int);
    match (by_default, explicit) {
        (Ok(Some(x)), Ok(Some(y))) => {
            if x < y {
                assert(p(x as int));
            }
            if y < x {
                assert(p(y as int));
            }
        },
        (Ok(Some(x)), Ok(None)) => {
            assert(p(x as int));
        },
        (Ok(None), Ok(Some(y))) => {
            assert(p(y as int));
        },
        _ => {},
    }
}

proof fn lemma_entry_matches_hold(es: Seq<Entry>, t: int, i: int)
    requires
        0 <= i < es.len(),
        es[i].window.has(t),
    ensures
        crate::around::entry_matches(es, t).contains(crate::around::entry_match(es[i])),
    decreases es.len(),
{
    let rest = crate::around::entry_matches(es.drop_last(), t);
    let m = crate::around::entry_match(es[i]);
    if i == es.len() - 1 {
        assert(es.last() == es[i]);
        let tail = seq![m];
        assert(crate::around::entry_matches(es, t) == rest + tail);
        assert((rest + tail)[rest.len() as int] == m);
    } else {
        assert(es.drop_last()[i] == es[i]);
        lemma_entry_matches_hold(es.drop_last(), t, i);
        let k = choose|k: int| 0 <= k < rest.len() && rest[k] == m;
        let all = crate::around::entry_matches(es, t);
        assert(all[k] == rest[k]);
    }
}

proof fn lemma_closed_matches_hold(ws: Seq<Window>, t: int, i: int)
    requires
        0 <= i < ws.len(),
        ws[i].has(t),
    ensures
        crate::around::closed_matches(ws, t).contains(WindowMatch { kind: 5, window: ws[i], capacity: Some(0i32) }),
    decreases ws.len(),
{
    let rest = crate::around::closed_matches(ws.drop_last(), t);
    let m = WindowMatch { kind: 5, window: ws[i], capacity: Some(0i32) };
    if i == ws.len() - 1 {
        assert(ws.last() == ws[i]);
        let all = crate::around::closed_matches(ws, t);
        assert(all == rest + seq![m]);
        assert(all[rest.len() as int] == m);
    } else {
        assert(ws.drop_last()[i] == ws[i]);
        lemma_closed_matches_hold(ws.drop_last(), t, i);
        let k = choose|k: int| 0 <= k < rest.len() && rest[k] == m;
        let all = crate::around::closed_matches(ws, t);
        assert(all[k] == rest[k]);
    }
}

proof fn lemma_contains_concat(x: Seq<WindowMatch>, y: Seq<WindowMatch>, m: WindowMatch)
    ensures
        x.contains(m) ==> (x + y).contains(m),
        y.contains(m) ==> (x + y).contains(m),
{
    if x.contains(m) {
        let k = choose|k: int| 0 <= k < x.len() && x[k] == m;
        assert((x + y)[k] == m);
    }
    if y.contains(m) {
        let k = choose|k: int| 0 <= k < y.len() && y[k] == m;
        assert((x + y)[x.len() + k] == m);
    }
}

proof fn lemma_matches_on_hold(rules: Seq<WeeklyRule>, kind: u8, t: int, d: int, n: int, i: int)
    requires
        0 <= i < n <= rules.len(),
        crate::rules::rule_hits(rules[i], d, t),
    ensures
        crate::rules::matches_on(rules, kind, t, d, n).contains(
            WindowMatch { kind, window: crate::rules::rule_window(rules[i], d), capacity: None },
        ),
    decreases n,
{
    let m = WindowMatch { kind, window: crate::rules::rule_window(rules[i], d), capacity: None };
    let rest = crate::rules::matches_on(rules, kind, t, d, n - 1);
    let tail = if crate::rules::rule_hits(rules[n - 1], d, t) {
        seq![WindowMatch { kind, window: crate::rules::rule_window(rules[n - 1], d), capacity: None }]
    } else {
        Seq::empty()
    };
    assert(crate::rules::matches_on(rules, kind, t, d, n) == rest + tail);
    if i == n - 1 {
        assert(tail[0] == m);
        assert(tail.contains(m));
    } else {
        lemma_matches_on_hold(rules, kind, t, d, n - 1, i);
    }
    lemma_contains_concat(rest, tail, m);
}

/// A rule applying on the instant's date, or on the day before it, with a
/// window holding the instant, is among the rule matches of its kind.
proof fn lemma_rule_matches_hold(rules: Seq<WeeklyRule>, kind: u8, t: int, d: int, i: int)
    requires
        0 <= i < rules.len(),
        d == date_of(t) || (d == date_of(t) - 1 && date_of(t) > MIN_DATE),
        crate::rules::rule_hits(rules[i], d, t),
    ensures
        crate::rules::rule_matches(rules, kind, t).contains(
            WindowMatch { kind, window: crate::rules::rule_window(rules[i], d), capacity: None },
        ),
{
    let m = WindowMatch { kind, window: crate::rules::rule_window(rules[i], d), capacity: None };
    let n = rules.len() as int;
    let before = if date_of(t) > MIN_DATE {
        crate::rules::matches_on(rules, kind, t, date_of(t) - 1, n)
    } else {
        Seq::empty()
    };
    let same = crate::rules::matches_on(rules, kind, t, date_of(t), n);
    lemma_matches_on_hold(rules, kind, t, d, n, i);
    lemma_contains_concat(before, same, m);
}

proof fn lemma_override_matches_hold(ovs: Seq<crate::calendar::CapacityWindow>, t: int, i: int)
    requires
        0 <= i < ovs.len(),
        ovs[i].window.has(t),
    ensures
        crate::around::override_matches(ovs, t).contains(
            WindowMatch { kind: 6, window: ovs[i].window, capacity: Some(ovs[i].capacity) },
        ),
    decreases ovs.len(),
{
    let m = WindowMatch { kind: 6, window: ovs[i].window, capacity: Some(ovs[i].capacity) };
    let rest = crate::around::override_matches(ovs.drop_last(), t);
    let all = crate::around::override_matches(ovs, t);
    if i == ovs.len() - 1 {
        assert(ovs.last() == ovs[i]);
        assert(all == rest + seq![m]);
        assert(all[rest.len() as int] == m);
    } else {
        assert(ovs.drop_last()[i] == ovs[i]);
        lemma_override_matches_hold(ovs.drop_last(), t, i);
        let k = choose|k: int| 0 <= k < rest.len() && rest[k] == m;
        assert(all[k] == rest[k]);
    }
}

/// What the windows found at an instant say of a calendar's own rules and
/// windows: an open rule whose window of the instant's date, or of the day
/// before, holds the instant is reported as an open rule (kind 2), a break rule
/// as a break rule (kind 4), both with that window and no capacity; a closed
/// window holding the instant as a closed window (kind 5) with capacity 0; a
/// capacity override as a capacity override (kind 6) with its capacity; and a
/// named entry holding it, with its window, as an opening (kind 3) when it
/// opens, as a closed window (kind 5, like a closed window) when it closes, and
/// as a capacity override (kind 6) with its capacity when it sets one.
pub proof fn law_window_matches_report_entries(c: Calendar, t: int, radius: Option<i128>, ms: Seq<WindowMatch>)
    requires
        c.components@.len() == 0,
        windows_found(c, t, radius, ms),
    ensures
        forall|i: int, d: int|
            0 <= i < c.open_rules@.len() && (d == date_of(t) || (d == date_of(t) - 1 && date_of(t) > MIN_DATE))
                && #[trigger] crate::rules::rule_hits(c.open_rules@[i], d, t)
                ==> ms.contains(WindowMatch { kind: 2, window: crate::rules::rule_window(c.open_rules@[i], d), capacity: None }),
        forall|i: int, d: int|
            0 <= i < c.break_rules@.len() && (d == date_of(t) || (d == date_of(t) - 1 && date_of(t) > MIN_DATE))
                && #[trigger] crate::rules::rule_hits(c.break_rules@[i], d, t)
                ==> ms.contains(WindowMatch { kind: 4, window: crate::rules::rule_window(c.break_rules@[i], d), capacity: None }),
        forall|j: int| 0 <= j < c.closed_windows@.len() && #[trigger] c.closed_windows@[j].has(t)
            ==> ms.contains(WindowMatch { kind: 5, window: c.closed_windows@[j], capacity: Some(0i32) }),
        forall|j: int| 0 <= j < c.capacity_overrides@.len() && #[trigger] c.capacity_overrides@[j].window.has(t)
            ==> ms.contains(WindowMatch { kind: 6, window: c.capacity_overrides@[j].window, capacity: Some(c.capacity_overrides@[j].capacity) }),
        forall|i: int| 0 <= i < c.entries@.len() && #[trigger] c.entries@[i].window.has(t) ==> {
            let e = c.entries@[i];
            &&& e.kind == 0 ==> ms.contains(WindowMatch { kind: 3, window: e.window, capacity: None })
            &&& e.kind == 1 ==> ms.contains(WindowMatch { kind: 5, window: e.window, capacity: None })
            &&& e.kind == 2 ==> ms.contains(WindowMatch { kind: 6, window: e.window, capacity: Some(e.capacity) })
        },
{
    let raw = raw_matches(c, t);
    assert(raw == crate::around::own_matches(c, t));
    let ro = crate::rules::rule_matches(c.open_rules@, 2, t);
    let rb = crate::rules::rule_matches(c.break_rules@, 4, t);
    let cl = crate::around::closed_matches(c.closed_windows@, t);
    let en = crate::around::entry_matches(c.entries@, t);
    let ov = crate::around::override_matches(c.capacity_overrides@, t);
    assert(raw == ro + rb + cl + en + ov);
    assert forall|m: WindowMatch| raw.contains(m) implies ms.contains(m) by {
        let k = choose|k: int| 0 <= k < raw.len() && raw[k] == m;
        if ms != raw {
            assert(ms.drop_first()[k] == m);
            assert(ms[k + 1] == m);
        }
    }
    assert forall|m: WindowMatch| ro.contains(m) || rb.contains(m) || cl.contains(m) || en.contains(m) || ov.contains(m)
        implies #[trigger] ms.contains(m) by {
        lemma_contains_concat(ro, rb, m);
        lemma_contains_concat(ro + rb, cl, m);
        lemma_contains_concat(ro + rb + cl, en, m);
        lemma_contains_concat(ro + rb + cl + en, ov, m);
    }
    assert forall|i: int, d: int|
        0 <= i < c.open_rules@.len() && (d == date_of(t) || (d == date_of(t) - 1 && date_of(t) > MIN_DATE))
            && #[trigger] crate::rules::rule_hits(c.open_rules@[i], d, t)
        implies ms.contains(WindowMatch { kind: 2, window: crate::rules::rule_window(c.open_rules@[i], d), capacity: None }) by {
        lemma_rule_matches_hold(c.open_rules@, 2, t, d, i);
    }
    assert forall|i: int, d: int|
        0 <= i < c.break_rules@.len() && (d == date_of(t) || (d == date_of(t) - 1 && date_of(t) > MIN_DATE))
            && #[trigger] crate::rules::rule_hits(c.break_rules@[i], d, t)
        implies ms.contains(WindowMatch { kind: 4, window: crate::rules::rule_window(c.break_rules@[i], d), capacity: None }) by {
        lemma_rule_matches_hold(c.break_rules@, 4, t, d, i);
    }
    assert forall|j: int| 0 <= j < c.closed_windows@.len() && #[trigger] c.closed_windows@[j].has(t)
        implies ms.contains(WindowMatch { kind: 5, window: c.closed_windows@[j], capacity: Some(0i32) }) by {
        lemma_closed_matches_hold(c.closed_windows@, t, j);
    }
    assert forall|j: int| 0 <= j < c.capacity_overrides@.len() && #[trigger] c.capacity_overrides@[j].window.has(t)
        implies ms.contains(WindowMatch { kind: 6, window: c.capacity_overrides@[j].window, capacity: Some(c.capacity_overrides@[j].capacity) }) by {
        lemma_override_matches_hold(c.capacity_overrides@, t, j);
    }
    assert forall|i: int| 0 <= i < c.entries@.len() && #[trigger] c.entries@[i].window.has(t)
        implies ms.contains(crate::around::entry_match(c.entries@[i])) by {
        lemma_entry_matches_hold(c.entries@, t, i);
    }
}

} // verus!
