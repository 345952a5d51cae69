//! Queries around an instant: the state window holding it, the capacity
//! changes before and after it inside a search radius, and the windows of the
//! calendar that hold it.
use vstd::prelude::*;
use crate::error::TimeGridError;
use crate::time::{Window, valid_instant, core_range};
use crate::calendar::{Calendar, Entry, CapacityWindow, wf, composite, capacity_at};
use crate::rules::{WindowMatch, rule_matches, add_rule_matches};
use crate::states::{
    StateWindow, query_value, cut_at, last_cut, segmentation, values_match, lemma_segmentation_covers,
    lemma_segmentation_order,
};
use crate::search::{radius_of, radius_fits, search_window_around};

verus! {

broadcast use vstd::seq_lib::group_seq_properties;

/// The capacity of the calendar over `[a, b)`, as its state windows compute it
/// (`capacity_at` away from the edges of time: see `lemma_query_value_core`).
pub open spec fn cap_fn(c: Calendar, a: int, b: int) -> spec_fn(int) -> int {
    |t: int| query_value(c, a, t)
}

/// The last cut up to `t` lies in `[a, t]`, and nothing after it up to `t` is a cut.
proof fn lemma_last_cut_bounds(c: Calendar, a: int, t: int)
    requires
        a <= t,
    ensures
        a <= last_cut(c, a, t) <= t,
        forall|x: int| last_cut(c, a, t) < x <= t ==> !#[trigger] cut_at(c, a, x),
    decreases t - a,
{
    if t > a && !cut_at(c, a, t) {
        lemma_last_cut_bounds(c, a, t - 1);
    }
}

/// Without a cut in `(p, t]`, every component's state value is the same at `p` and `t`.
proof fn lemma_components_steady(c: Calendar, a: int, p: int, t: int, k: int)
    requires
        p <= t,
        0 <= k < c.components@.len(),
        forall|x: int| p < x <= t ==> !#[trigger] cut_at(c, a, x),
    ensures
        query_value(c.components@[k], a, p) == query_value(c.components@[k], a, t),
    decreases t - p,
{
    if t > p {
        assert(!cut_at(c, a, t));
        assert(query_value(c.components@[k], a, t - 1) == query_value(c.components@[k], a, t));
        lemma_components_steady(c, a, p, t - 1, k);
    }
}

/// Away from the first and last representable day, what the state windows of
/// a query report at an instant is the calendar's capacity there.
pub proof fn lemma_query_value_core(c: Calendar, a: int, t: int)
    requires
        wf(c),
        a <= t,
        core_range(a, t + 1),
    ensures
        query_value(c, a, t) == capacity_at(c, t),
    decreases c,
{
    if composite(c) {
        let p = last_cut(c, a, t);
        lemma_last_cut_bounds(c, a, t);
        assert forall|k: int| 0 <= k < c.components@.len() implies capacity_at(#[trigger] c.components@[k], t)
            == capacity_at(c.components@[k], p) by {
            assert(decreases_to!(c => c.components));
            assert(decreases_to!(c.components => c.components@));
            assert(decreases_to!(c.components@ => c.components@[k]));
            assert(wf(c.components@[k]));
            lemma_query_value_core(c.components@[k], a, t);
            lemma_query_value_core(c.components@[k], a, p);
            lemma_components_steady(c, a, p, t, k);
        }
        crate::states::lemma_components_min_same(c.components@, t, p, c.components@.len() as int);
    } else {
        crate::time::lemma_core_dates(t);
        crate::states::lemma_win_capacity_core(c, t);
    }
}

/// The capacity changes at `y`: it differs from the capacity just before.
pub open spec fn change_at(f: spec_fn(int) -> int, y: int) -> bool {
    f(y - 1) != f(y)
}

/// `y` is a start of `st` other than `a`, or an end other than `b`.
pub open spec fn cands(st: StateWindow, a: int, b: int, y: int) -> bool {
    (st.window.start == y && y != a) || (st.window.end == y && y != b)
}

/// `y` is a boundary between two state windows of `s`.
pub open spec fn interior(s: Seq<StateWindow>, a: int, b: int, y: int) -> bool {
    exists|i: int| 0 <= i < s.len() && #[trigger] cands(s[i], a, b, y)
}

/// The boundaries between the windows of a segmentation are exactly the
/// instants inside the range where the capacity changes.
pub proof fn lemma_interior_change(s: Seq<StateWindow>, a: int, b: int, f: spec_fn(int) -> int)
    requires
        segmentation(s, a, b),
        values_match(s, f),
    ensures
        forall|y: int| #[trigger] interior(s, a, b, y) <==> (a < y < b && change_at(f, y)),
{
    lemma_segmentation_order(s, a, b);
    assert forall|y: int| #[trigger] interior(s, a, b, y) <==> (a < y < b && change_at(f, y)) by {
        if interior(s, a, b, y) {
            let i = choose|i: int| 0 <= i < s.len() && #[trigger] cands(s[i], a, b, y);
            if s[i].window.start == y && y != a {
                assert(i > 0);
                assert(s[i - 1].window.end == s[i].window.start);
                assert(s[i - 1].window.has(y - 1));
                assert(s[i].window.has(y));
                assert(s[i - 1].capacity != s[i].capacity);
            } else {
                assert(i < s.len() - 1);
                assert(s[i].window.end == s[i + 1].window.start);
                assert(s[i].window.has(y - 1));
                assert(s[i + 1].window.has(y));
                assert(s[i].capacity != s[i + 1].capacity);
            }
        }
        if a < y < b && change_at(f, y) {
            lemma_segmentation_covers(s, a, b, y);
            let i = choose|i: int| 0 <= i < s.len() && (#[trigger] s[i]).window.has(y);
            if s[i].window.start == y {
                assert(cands(s[i], a, b, y));
            } else {
                assert(s[i].window.has(y - 1));
            }
        }
    }
}

/// The state windows of a query follow `cap_fn`.
pub proof fn lemma_states_cap(c: Calendar, a: int, b: int, s: Seq<StateWindow>)
    requires
        values_match(s, |t: int| query_value(c, a, t)),
    ensures
        values_match(s, cap_fn(c, a, b)),
{
    let f = cap_fn(c, a, b);
    assert forall|i: int, t: int| 0 <= i < s.len() && #[trigger] s[i].window.has(t) implies s[i].capacity == f(t) by {
        assert(s[i].capacity == query_value(c, a, t));
    }
}

/// `x` is the first change of `f` after `instant` and before `b`.
pub open spec fn next_change(f: spec_fn(int) -> int, instant: int, b: int, x: int) -> bool {
    &&& instant < x < b
    &&& change_at(f, x)
    &&& forall|y: int| instant < y < x ==> !#[trigger] change_at(f, y)
}

/// `x` is the last change of `f` after `a` and before `instant`.
pub open spec fn previous_change(f: spec_fn(int) -> int, a: int, instant: int, x: int) -> bool {
    &&& a < x < instant
    &&& change_at(f, x)
    &&& forall|y: int| x < y < instant ==> !#[trigger] change_at(f, y)
}

/// `x` is the change of `f` in `(a, b)` nearest to `instant`: `instant` itself,
/// else the last change before it unless the first change after it is strictly nearer.
pub open spec fn nearest_change(f: spec_fn(int) -> int, a: int, b: int, instant: int, x: int) -> bool {
    ||| x == instant && change_at(f, instant)
    ||| !change_at(f, instant) && previous_change(f, a, instant, x) && forall|y: int|
        instant < y < b && #[trigger] change_at(f, y) ==> instant - x <= y - instant
    ||| !change_at(f, instant) && next_change(f, instant, b, x) && forall|y: int|
        a < y < instant && #[trigger] change_at(f, y) ==> x - instant < instant - y
}

/// `w` is the largest window of `[a, b)` holding `instant` on which `f` keeps its value there.
pub open spec fn constant_run(f: spec_fn(int) -> int, a: int, b: int, instant: int, w: Window) -> bool {
    &&& a <= w.start <= instant < w.end <= b
    &&& forall|t: int| w.start <= t < w.end ==> #[trigger] f(t) == f(instant)
    &&& w.start == a || f(w.start - 1) != f(instant)
    &&& w.end == b || f(w.end as int) != f(instant)
}

/// The search window around `instant`.
pub open spec fn around(instant: int, search_radius: Option<i128>) -> Window {
    Window {
        start: (instant - radius_of(search_radius)) as i64,
        end: (instant + radius_of(search_radius)) as i64,
    }
}

/// The matches of the closed windows holding `t`, in order.
pub open spec fn closed_matches(ws: Seq<Window>, t: int) -> Seq<WindowMatch>
    decreases ws.len(),
{
    if ws.len() == 0 {
        Seq::empty()
    } else {
        closed_matches(ws.drop_last(), t) + if ws.last().has(t) {
            seq![WindowMatch { kind: 5, window: ws.last(), capacity: Some(0i32) }]
        } else {
            Seq::empty()
        }
    }
}

/// The kind of match of an entry of kind `kind`: an opening, a closing or a capacity window.
pub open spec fn entry_match_kind(kind: u8) -> u8 {
    if kind == 0 {
        3
    } else if kind == 2 {
        6
    } else {
        5
    }
}

/// The match of an entry.
pub open spec fn entry_match(e: Entry) -> WindowMatch {
    WindowMatch {
        kind: entry_match_kind(e.kind),
        window: e.window,
        capacity: if e.kind == 2 {
            Some(e.capacity)
        } else {
            None
        },
    }
}

/// The matches of the entries holding `t`, in order.
pub open spec fn entry_matches(es: Seq<Entry>, t: int) -> Seq<WindowMatch>
    decreases es.len(),
{
    if es.len() == 0 {
        Seq::empty()
    } else {
        entry_matches(es.drop_last(), t) + if es.last().window.has(t) {
            seq![entry_match(es.last())]
        } else {
            Seq::empty()
        }
    }
}

/// The matches of the capacity overrides holding `t`, in order.
pub open spec fn override_matches(ovs: Seq<CapacityWindow>, t: int) -> Seq<WindowMatch>
    decreases ovs.len(),
{
    if ovs.len() == 0 {
        Seq::empty()
    } else {
        override_matches(ovs.drop_last(), t) + if ovs.last().window.has(t) {
            seq![WindowMatch { kind: 6, window: ovs.last().window, capacity: Some(ovs.last().capacity) }]
        } else {
            Seq::empty()
        }
    }
}

/// The matches of a calendar's own rules and windows at `t`: open rules,
/// break rules, closed windows, entries, then capacity overrides.
pub open spec fn own_matches(c: Calendar, t: int) -> Seq<WindowMatch> {
    rule_matches(c.open_rules@, 2, t) + rule_matches(c.break_rules@, 4, t) + closed_matches(c.closed_windows@, t)
        + entry_matches(c.entries@, t) + override_matches(c.capacity_overrides@, t)
}

/// The matches of a calendar at `t`: its own, or those of its components in order.
pub open spec fn raw_matches(c: Calendar, t: int) -> Seq<WindowMatch>
    decreases c, 0int,
{
    if c.components@.len() > 0 {
        components_matches(c.components@, t, c.components@.len() as int)
    } else {
        own_matches(c, t)
    }
}

/// The matches of the first `n` components at `t`, in order.
pub open spec fn components_matches(cs: Seq<Calendar>, t: int, n: int) -> Seq<WindowMatch>
    decreases cs, n,
{
    if n <= 0 || n > cs.len() {
        Seq::empty()
    } else {
        components_matches(cs, t, n - 1) + raw_matches(cs[n - 1], t)
    }
}

/// The match of the state window holding `t`: kind 0 when open, 1 otherwise.
pub open spec fn effective_match(cap: int, w: Window) -> WindowMatch {
    WindowMatch {
        kind: if cap > 0 {
            0u8
        } else {
            1u8
        },
        window: w,
        capacity: Some(cap as i32),
    }
}

/// What `get_next_transition_time` finds around `instant`: the first change of
/// the capacity after it inside the search range, or none.
pub open spec fn next_transition_found(c: Calendar, instant: int, search_radius: Option<i128>, x: Option<i64>) -> bool {
    let q = around(instant, search_radius);
    let f = cap_fn(c, q.start as int, q.end as int);
    match x {
        Some(x) => next_change(f, instant, q.end as int, x as int),
        None => forall|y: int| instant < y < q.end ==> !#[trigger] change_at(f, y),
    }
}

/// What `get_previous_transition_time` finds around `instant`: the last change
/// of the capacity before it inside the search range, or none.
pub open spec fn previous_transition_found(c: Calendar, instant: int, search_radius: Option<i128>, x: Option<i64>) -> bool {
    let q = around(instant, search_radius);
    let f = cap_fn(c, q.start as int, q.end as int);
    match x {
        Some(x) => previous_change(f, q.start as int, instant, x as int),
        None => forall|y: int| q.start < y < instant ==> !#[trigger] change_at(f, y),
    }
}

/// What `get_nearest_transition_time` finds around `instant`: the nearest change
/// of the capacity inside the search range, `instant` itself when it changes there.
pub open spec fn nearest_transition_found(c: Calendar, instant: int, search_radius: Option<i128>, x: Option<i64>) -> bool {
    let q = around(instant, search_radius);
    let f = cap_fn(c, q.start as int, q.end as int);
    {
        &&& change_at(f, instant) ==> x == Some(instant as i64)
        &&& match x {
            Some(x) => nearest_change(f, q.start as int, q.end as int, instant, x as int),
            None => forall|y: int| q.start < y < q.end ==> !#[trigger] change_at(f, y),
        }
    }
}

/// What `get_current_state_window` finds around `instant`: the state window
/// holding it when it allows work exactly if `can_work`.
pub open spec fn current_window_found(c: Calendar, instant: int, search_radius: Option<i128>, can_work: bool, w: Option<Window>) -> bool {
    let q = around(instant, search_radius);
    let f = cap_fn(c, q.start as int, q.end as int);
    &&& w matches Some(w) ==> q.start <= w.start <= instant < w.end <= q.end
    &&& match w {
        Some(w) => constant_run(f, q.start as int, q.end as int, instant, w) && (f(instant) > 0) == can_work,
        None => (f(instant) > 0) != can_work,
    }
}

/// What `get_windows_at` finds at `instant`: the matches of the calendar's own
/// windows, after the state window holding `instant` when the search range
/// agrees with the capacity at `instant` on whether it is open.
pub open spec fn windows_found(c: Calendar, instant: int, search_radius: Option<i128>, ms: Seq<WindowMatch>) -> bool {
    let q = around(instant, search_radius);
    let f = cap_fn(c, q.start as int, q.end as int);
    let raw = raw_matches(c, instant);
    let cap = capacity_at(c, instant);
    &&& ms == raw || (ms.len() > 0 && ms.drop_first() == raw && ms[0] == effective_match(cap, ms[0].window)
        && q.start <= ms[0].window.start <= instant < ms[0].window.end <= q.end)
    &&& {
        &&& (ms != raw <==> (f(instant) > 0) == (cap > 0))
        &&& ms != raw ==> constant_run(f, q.start as int, q.end as int, instant, ms[0].window)
    }
}

impl Calendar {
    /// The first instant after `instant`, within the search radius (a week by
    /// default), at which the capacity changes.
    pub fn get_next_transition_time(&self, instant: i64, search_radius: Option<i128>) -> (r: Result<Option<i64>, TimeGridError>)
        requires
            wf(*self),
            valid_instant(instant as int),
            radius_fits(instant as int, search_radius),
        ensures
            radius_of(search_radius) <= 0 ==> r == Err::<Option<i64>, TimeGridError>(TimeGridError::SearchRadiusNotPositive),
            radius_of(search_radius) > 0 ==> r is Ok,
            r matches Ok(x) ==> next_transition_found(*self, instant as int, search_radius, x),
    {
        let query = search_window_around(instant, search_radius)?;
        let states = self.state_windows(query.start, query.end)?;
        let ghost a = query.start as int;
        let ghost b = query.end as int;
        let ghost f = cap_fn(*self, a, b);
        let mut transition: Option<i64> = None;
        let mut i: usize = 0;
        while i < states.len()
            invariant
                i <= states.len(),
                a == query.start,
                b == query.end,
                a < instant < b,
                forall|j: int, y: int| 0 <= j < i && #[trigger] cands(states@[j], a, b, y) && y > instant ==> (
                    transition matches Some(x) && x <= y),
                transition matches Some(x) ==> x > instant && interior(states@, a, b, x as int),
            decreases states.len() - i,
        {
            let st = states[i];
            let ghost before = transition;
            if st.window.start != query.start && st.window.start > instant {
                transition = Some(crate::time::min_dt(transition, st.window.start));
            }
            if st.window.end != query.end && st.window.end > instant {
                transition = Some(crate::time::min_dt(transition, st.window.end));
            }
            proof {
                if let Some(x) = transition {
                    if before != transition {
                        assert(cands(states@[i as int], a, b, x as int));
                    }
                }
            }
            i = i + 1;
        }
        proof {
            lemma_states_cap(*self, a, b, states@);
            lemma_interior_change(states@, a, b, f);
            if let Some(x) = transition {
                assert(interior(states@, a, b, x as int));
                assert forall|y: int| instant < y < x implies !#[trigger] change_at(f, y) by {
                    if change_at(f, y) && y < b {
                        assert(interior(states@, a, b, y));
                        let j = choose|j: int| 0 <= j < states@.len() && #[trigger] cands(states@[j], a, b, y);
                    }
                }
            } else {
                assert forall|y: int| instant < y < b implies !#[trigger] change_at(f, y) by {
                    if change_at(f, y) {
                        assert(interior(states@, a, b, y));
                        let j = choose|j: int| 0 <= j < states@.len() && #[trigger] cands(states@[j], a, b, y);
                    }
                }
            }
        }
        Ok(transition)
    }

    /// The last instant before `instant`, within the search radius (a week by
    /// default), at which the capacity changes.
    pub fn get_previous_transition_time(&self, instant: i64, search_radius: Option<i128>) -> (r: Result<Option<i64>, TimeGridError>)
        requires
            wf(*self),
            valid_instant(instant as int),
            radius_fits(instant as int, search_radius),
        ensures
            radius_of(search_radius) <= 0 ==> r == Err::<Option<i64>, TimeGridError>(TimeGridError::SearchRadiusNotPositive),
            radius_of(search_radius) > 0 ==> r is Ok,
            r matches Ok(x) ==> previous_transition_found(*self, instant as int, search_radius, x),
    {
        let query = search_window_around(instant, search_radius)?;
        let states = self.state_windows(query.start, query.end)?;
        let ghost a = query.start as int;
        let ghost b = query.end as int;
        let ghost f = cap_fn(*self, a, b);
        let mut transition: Option<i64> = None;
        let mut i: usize = 0;
        while i < states.len()
            invariant
                i <= states.len(),
                a == query.start,
                b == query.end,
                a < instant < b,
                forall|j: int, y: int| 0 <= j < i && #[trigger] cands(states@[j], a, b, y) && y < instant ==> (
                    transition matches Some(x) && y <= x),
                transition matches Some(x) ==> x < instant && interior(states@, a, b, x as int),
            decreases states.len() - i,
        {
            let st = states[i];
            let ghost before = transition;
            if st.window.start != query.start && st.window.start < instant {
                transition = Some(crate::time::max_dt(transition, st.window.start));
            }
            if st.window.end != query.end && st.window.end < instant {
                transition = Some(crate::time::max_dt(transition, st.window.end));
            }
            proof {
                if let Some(x) = transition {
                    if before != transition {
                        assert(cands(states@[i as int], a, b, x as int));
                    }
                }
            }
            i = i + 1;
        }
        proof {
            lemma_states_cap(*self, a, b, states@);
            lemma_interior_change(states@, a, b, f);
            if let Some(x) = transition {
                assert(interior(states@, a, b, x as int));
                assert forall|y: int| x < y < instant implies !#[trigger] change_at(f, y) by {
                    if change_at(f, y) && y > a {
                        assert(interior(states@, a, b, y));
                        let j = choose|j: int| 0 <= j < states@.len() && #[trigger] cands(states@[j], a, b, y);
                    }
                }
            } else {
                assert forall|y: int| a < y < instant implies !#[trigger] change_at(f, y) by {
                    if change_at(f, y) {
                        assert(interior(states@, a, b, y));
                        let j = choose|j: int| 0 <= j < states@.len() && #[trigger] cands(states@[j], a, b, y);
                    }
                }
            }
        }
        Ok(transition)
    }

    /// The instant nearest to `instant`, within the search radius (a week by
    /// default), at which the capacity changes: `instant` itself when it does
    /// there, the earlier of two at the same distance.
    pub fn get_nearest_transition_time(&self, instant: i64, search_radius: Option<i128>) -> (r: Result<Option<i64>, TimeGridError>)
        requires
            wf(*self),
            valid_instant(instant as int),
            radius_fits(instant as int, search_radius),
        ensures
            radius_of(search_radius) <= 0 ==> r == Err::<Option<i64>, TimeGridError>(TimeGridError::SearchRadiusNotPositive),
            radius_of(search_radius) > 0 ==> r is Ok,
            r matches Ok(x) ==> nearest_transition_found(*self, instant as int, search_radius, x),
    {
        let query = search_window_around(instant, search_radius)?;
        let states = self.state_windows(query.start, query.end)?;
        let ghost a = query.start as int;
        let ghost b = query.end as int;
        let ghost f = cap_fn(*self, a, b);
        proof {
            lemma_states_cap(*self, a, b, states@);
            lemma_interior_change(states@, a, b, f);
        }
        let mut i: usize = 0;
        while i < states.len()
            invariant
                i <= states.len(),
                a == query.start,
                b == query.end,
                forall|j: int| 0 <= j < i ==> !#[trigger] cands(states@[j], a, b, instant as int),
                radius_of(search_radius) > 0,
                query == around(instant as int, search_radius),
                f == cap_fn(*self, a, b),
                forall|y: int| #[trigger] interior(states@, a, b, y) <==> (a < y < b && change_at(f, y)),
            decreases states.len() - i,
        {
            let st = states[i];
            if (st.window.start == instant && st.window.start != query.start) || (st.window.end == instant
                && st.window.end != query.end) {
                proof {
                    assert(cands(states@[i as int], a, b, instant as int));
                    assert(interior(states@, a, b, instant as int));
                }
                return Ok(Some(instant));
            }
            i = i + 1;
        }
        proof {
            assert(!interior(states@, a, b, instant as int));
        }
        let previous = self.get_previous_transition_time(instant, search_radius)?;
        let next = self.get_next_transition_time(instant, search_radius)?;
        let r = match (previous, next) {
            (None, n) => n,
            (p, None) => p,
            (Some(p), Some(n)) => {
                if instant as i128 - p as i128 <= n as i128 - instant as i128 {
                    Some(p)
                } else {
                    Some(n)
                }
            },
        };
        proof {
            if let (Some(p), Some(n)) = (previous, next) {
                assert forall|y: int| instant < y < b && change_at(f, y) implies p <= instant && instant - p
                    <= y - instant || y >= n by {
                    if y < n {
                        assert(!change_at(f, y));
                    }
                }
                assert forall|y: int| a < y < instant && change_at(f, y) implies y <= p by {
                    if y > p {
                        assert(!change_at(f, y));
                    }
                }
            }
            if let Some(p) = previous {
                assert forall|y: int| a < y < instant && change_at(f, y) implies y <= p by {
                    if y > p {
                        assert(!change_at(f, y));
                    }
                }
            }
            if let Some(n) = next {
                assert forall|y: int| instant < y < b && change_at(f, y) implies y >= n by {
                    if y < n {
                        assert(!change_at(f, y));
                    }
                }
            }
            if previous is None && next is None {
                assert forall|y: int| a < y < b implies !#[trigger] change_at(f, y) by {
                    if y > instant {
                        assert(!change_at(f, y));
                    } else if y < instant {
                        assert(!change_at(f, y));
                    }
                }
            }
        }
        Ok(r)
    }

    /// The state window of the search range around `instant` (a week each way
    /// by default) that holds it, when it allows work exactly if `can_work`.
    pub fn get_current_state_window(&self, instant: i64, search_radius: Option<i128>, can_work: bool) -> (r: Result<Option<Window>, TimeGridError>)
        requires
            wf(*self),
            valid_instant(instant as int),
            radius_fits(instant as int, search_radius),
        ensures
            radius_of(search_radius) <= 0 ==> r == Err::<Option<Window>, TimeGridError>(TimeGridError::SearchRadiusNotPositive),
            radius_of(search_radius) > 0 ==> r is Ok,
            r matches Ok(w) ==> current_window_found(*self, instant as int, search_radius, can_work, w),
    {
        let query = search_window_around(instant, search_radius)?;
        let states = self.state_windows(query.start, query.end)?;
        let ghost a = query.start as int;
        let ghost b = query.end as int;
        let ghost f = cap_fn(*self, a, b);
        proof {
            lemma_segmentation_covers(states@, a, b, instant as int);
            lemma_segmentation_order(states@, a, b);
            lemma_states_cap(*self, a, b, states@);
        }
        let ghost holder = choose|i: int| 0 <= i < states@.len() && (#[trigger] states@[i]).window.has(instant as int);
        let mut i: usize = 0;
        while i < states.len()
            invariant
                i <= states.len(),
                0 <= holder < states@.len(),
                states@[holder].window.has(instant as int),
                forall|j: int| 0 <= j < states@.len() && j != holder ==> !(#[trigger] states@[j]).window.has(instant as int),
                i > holder ==> (states@[holder].capacity > 0) != can_work,
                a == query.start,
                b == query.end,
                radius_of(search_radius) > 0,
                query == around(instant as int, search_radius),
                f == cap_fn(*self, a, b),
                values_match(states@, f),
                segmentation(states@, a, b),
                forall|j: int, k: int| 0 <= j < k < states@.len() ==> (#[trigger] states@[j]).window.end <= (#[trigger] states@[k]).window.start,
            decreases states.len() - i,
        {
            let st = states[i];
            if st.can_work() == can_work && st.window.contains(instant) {
                proof {
                    assert(i == holder);
                    let c = states@[holder].capacity;
                    assert(c == f(instant as int));
                    assert forall|t: int| st.window.start <= t < st.window.end implies #[trigger] f(t) == f(
                        instant as int,
                    ) by {
                        assert(states@[holder].window.has(t));
                    }
                    if st.window.start != a {
                        assert(holder > 0);
                        assert(states@[holder - 1].window.end == st.window.start);
                        assert(states@[holder - 1].window.has(st.window.start - 1));
                        assert(states@[holder - 1].capacity != c);
                    }
                    if st.window.end != b {
                        assert(holder < states@.len() - 1);
                        assert(states@[holder + 1].window.start == st.window.end);
                        assert(states@[holder + 1].window.has(st.window.end as int));
                        assert(states@[holder + 1].capacity != c);
                    }
                }
                return Ok(Some(st.window));
            }
            proof {
                if i == holder {
                    assert(st.window.has(instant as int));
                }
            }
            i = i + 1;
        }
        proof {
            assert(states@[holder].capacity == f(instant as int));
        }
        Ok(None)
    }

    /// The open state window holding `instant`, within the search radius.
    pub fn get_current_open_window(&self, instant: i64, search_radius: Option<i128>) -> (r: Result<Option<Window>, TimeGridError>)
        requires
            wf(*self),
            valid_instant(instant as int),
            radius_fits(instant as int, search_radius),
        ensures
            radius_of(search_radius) <= 0 ==> r == Err::<Option<Window>, TimeGridError>(TimeGridError::SearchRadiusNotPositive),
            radius_of(search_radius) > 0 ==> r is Ok,
            r matches Ok(w) ==> current_window_found(*self, instant as int, search_radius, true, w),
    {
        self.get_current_state_window(instant, search_radius, true)
    }

    /// The unavailable state window holding `instant`, within the search radius.
    pub fn get_current_unavailable_window(&self, instant: i64, search_radius: Option<i128>) -> (r: Result<Option<Window>, TimeGridError>)
        requires
            wf(*self),
            valid_instant(instant as int),
            radius_fits(instant as int, search_radius),
        ensures
            radius_of(search_radius) <= 0 ==> r == Err::<Option<Window>, TimeGridError>(TimeGridError::SearchRadiusNotPositive),
            radius_of(search_radius) > 0 ==> r is Ok,
            r matches Ok(w) ==> current_window_found(*self, instant as int, search_radius, false, w),
    {
        self.get_current_state_window(instant, search_radius, false)
    }

    /// Appends the matches at `instant` of the calendar's rules, closed windows,
    /// entries and capacity overrides, or of each component's in turn.
    #[verifier::rlimit(30)]
    pub fn add_raw_window_matches(&self, instant: i64, result: &mut Vec<WindowMatch>)
        requires
            wf(*self),
            valid_instant(instant as int),
        ensures
            final(result)@ == old(result)@ + raw_matches(*self, instant as int),
        decreases self,
    {
        if self.is_composite() {
            let ghost base = result@;
            let mut i: usize = 0;
            while i < self.components.len()
                invariant
                    i <= self.components@.len(),
                    wf(*self),
                    composite(*self),
                    valid_instant(instant as int),
                    result@ == base + components_matches(self.components@, instant as int, i as int),
                decreases self.components@.len() - i,
            {
                proof {
                    assert(decreases_to!(self => self.components));
                    assert(decreases_to!(self.components => self.components@));
                    assert(decreases_to!(self.components@ => self.components@[i as int]));
                    assert(wf(self.components@[i as int]));
                }
                self.components[i].add_raw_window_matches(instant, result);
                proof {
                    assert(result@ =~= base + components_matches(self.components@, instant as int, i + 1));
                }
                i = i + 1;
            }
            return;
        }
        let ghost base = result@;
        add_rule_matches(&self.open_rules, 2, instant, result);
        add_rule_matches(&self.break_rules, 4, instant, result);
        let ghost after_rules = result@;
        let mut i: usize = 0;
        while i < self.closed_windows.len()
            invariant
                i <= self.closed_windows@.len(),
                result@ == after_rules + closed_matches(self.closed_windows@.take(i as int), instant as int),
            decreases self.closed_windows@.len() - i,
        {
            proof {
                assert(self.closed_windows@.take(i + 1).drop_last() =~= self.closed_windows@.take(i as int));
            }
            let w = self.closed_windows[i];
            if w.contains(instant) {
                result.push(WindowMatch { kind: 5, window: w, capacity: Some(0) });
            }
            proof {
                assert(result@ =~= after_rules + closed_matches(self.closed_windows@.take(i + 1), instant as int));
            }
            i = i + 1;
        }
        proof {
            assert(self.closed_windows@.take(self.closed_windows@.len() as int) =~= self.closed_windows@);
        }
        let ghost after_closed = result@;
        let mut k: usize = 0;
        while k < self.entries.len()
            invariant
                k <= self.entries@.len(),
                result@ == after_closed + entry_matches(self.entries@.take(k as int), instant as int),
            decreases self.entries@.len() - k,
        {
            proof {
                assert(self.entries@.take(k + 1).drop_last() =~= self.entries@.take(k as int));
            }
            let e = &self.entries[k];
            if e.window.contains(instant) {
                let kind: u8 = if e.kind == 0 {
                    3
                } else if e.kind == 2 {
                    6
                } else {
                    5
                };
                let capacity = if e.kind == 2 {
                    Some(e.capacity)
                } else {
                    None
                };
                result.push(WindowMatch { kind, window: e.window, capacity });
            }
            proof {
                assert(result@ =~= after_closed + entry_matches(self.entries@.take(k + 1), instant as int));
            }
            k = k + 1;
        }
        proof {
            assert(self.entries@.take(self.entries@.len() as int) =~= self.entries@);
        }
        let ghost after_entries = result@;
        let mut j: usize = 0;
        while j < self.capacity_overrides.len()
            invariant
                j <= self.capacity_overrides@.len(),
                result@ == after_entries + override_matches(self.capacity_overrides@.take(j as int), instant as int),
            decreases self.capacity_overrides@.len() - j,
        {
            proof {
                assert(self.capacity_overrides@.take(j + 1).drop_last() =~= self.capacity_overrides@.take(j as int));
            }
            let o = self.capacity_overrides[j];
            if o.window.contains(instant) {
                result.push(WindowMatch { kind: 6, window: o.window, capacity: Some(o.capacity) });
            }
            proof {
                assert(result@ =~= after_entries + override_matches(self.capacity_overrides@.take(j + 1), instant as int));
            }
            j = j + 1;
        }
        proof {
            assert(self.capacity_overrides@.take(self.capacity_overrides@.len() as int) =~= self.capacity_overrides@);
            assert(result@ =~= base + raw_matches(*self, instant as int));
        }
    }

    /// The windows holding `instant`: first the state window around it, open or
    /// unavailable as the capacity at `instant` says, when the search range
    /// agrees; then the rules, closed windows, entries and overrides holding it.
    pub fn get_windows_at(&self, instant: i64, search_radius: Option<i128>) -> (r: Result<Vec<WindowMatch>, TimeGridError>)
        requires
            wf(*self),
            valid_instant(instant as int),
            radius_fits(instant as int, search_radius),
        ensures
            radius_of(search_radius) <= 0 ==> r == Err::<Vec<WindowMatch>, TimeGridError>(TimeGridError::SearchRadiusNotPositive),
            radius_of(search_radius) > 0 ==> r is Ok,
            r matches Ok(ms) ==> windows_found(*self, instant as int, search_radius, ms@),
    {
        let mut result: Vec<WindowMatch> = Vec::new();
        let capacity = self.get_capacity_at(instant);
        let effective = if capacity > 0 {
            self.get_current_open_window(instant, search_radius)?
        } else {
            self.get_current_unavailable_window(instant, search_radius)?
        };
        if let Some(window) = effective {
            result.push(WindowMatch { kind: if capacity > 0 { 0 } else { 1 }, window, capacity: Some(capacity) });
        }
        let ghost before = result@;
        self.add_raw_window_matches(instant, &mut result);
        proof {
            let raw = raw_matches(*self, instant as int);
            if effective is Some {
                assert(result@.drop_first() =~= raw);
                assert(result@.len() == raw.len() + 1);
                assert(result@ != raw);
            } else {
                assert(result@ =~= raw);
            }
        }
        Ok(result)
    }
}

} // verus!
