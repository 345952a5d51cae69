//! A timeline compiled from a calendar over a window: the state windows of
//! the window, searched by binary search, and batches of timelines.
use vstd::prelude::*;
use crate::error::TimeGridError;
use crate::time::{Window, valid_instant, core_range};
use crate::calendar::{Calendar, wf, composite, capacity_at, same_calendar, lemma_same_calendar};
use crate::states::{
    StateWindow, win_capacity, segmentation, values_match, lemma_segmentation_order,
    lemma_segmentation_covers, add_state_window, lemma_append_state, query_value, cut_at, last_cut,
    win_opened, win_closed,
};
use crate::around::{change_at, next_change, previous_change, constant_run};
use crate::windows::{covers_at, canonical, within, merge};
use crate::measure::count_where;
use crate::search::{radius_fits, slot_at, first_from, lemma_run_extends};
use crate::analysis::{
    TimeGridInstantAnalysis, TimeGridTimelineAnalysis, analysis_wf, works, working_span, lemma_work_span,
};

verus! {

broadcast use vstd::seq_lib::group_seq_properties;

/// Two copies of a calendar have the same cuts up to each instant.
proof fn lemma_same_last_cut(x: Calendar, y: Calendar, a: int, t: int)
    requires
        forall|p: int| #[trigger] cut_at(x, a, p) == cut_at(y, a, p),
    ensures
        last_cut(x, a, t) == last_cut(y, a, t),
    decreases t - a,
{
    if t > a && !cut_at(x, a, t) {
        lemma_same_last_cut(x, y, a, t - 1);
    }
}

/// Two copies of a calendar have the same state values.
pub proof fn lemma_same_state_value(x: Calendar, y: Calendar, a: int)
    requires
        same_calendar(x, y),
    ensures
        forall|t: int| #[trigger] query_value(x, a, t) == query_value(y, a, t),
    decreases x,
{
    lemma_same_calendar(x, y);
    if x.components@.len() > 0 {
        assert forall|k: int, t: int| 0 <= k < x.components@.len() implies #[trigger] query_value(x.components@[k], a, t)
            == query_value(y.components@[k], a, t) by {
            assert(decreases_to!(x => x.components));
            assert(decreases_to!(x.components => x.components@));
            assert(decreases_to!(x.components@ => x.components@[k]));
            lemma_same_state_value(x.components@[k], y.components@[k], a);
        }
        assert forall|p: int| #[trigger] cut_at(x, a, p) == cut_at(y, a, p) by {
            if cut_at(x, a, p) {
                let k = choose|k: int| 0 <= k < x.components@.len() && query_value(#[trigger] x.components@[k], a, p - 1)
                    != query_value(x.components@[k], a, p);
                assert(query_value(x.components@[k], a, p - 1) == query_value(y.components@[k], a, p - 1));
                assert(query_value(x.components@[k], a, p) == query_value(y.components@[k], a, p));
            }
            if cut_at(y, a, p) {
                let k = choose|k: int| 0 <= k < y.components@.len() && query_value(#[trigger] y.components@[k], a, p - 1)
                    != query_value(y.components@[k], a, p);
                assert(query_value(x.components@[k], a, p - 1) == query_value(y.components@[k], a, p - 1));
                assert(query_value(x.components@[k], a, p) == query_value(y.components@[k], a, p));
            }
        }
        assert forall|t: int| #[trigger] query_value(x, a, t) == query_value(y, a, t) by {
            lemma_same_last_cut(x, y, a, t);
        }
    } else {
        assert forall|t: int| #[trigger] query_value(x, a, t) == query_value(y, a, t) by {
            assert(win_opened(x, t) == win_opened(y, t));
            assert(win_closed(x, t) == win_closed(y, t));
        }
    }
}

/// The capacity of the window of `s` holding `t`.
pub open spec fn state_value(s: Seq<StateWindow>, t: int) -> int {
    s[choose|i: int| 0 <= i < s.len() && #[trigger] s[i].window.has(t)].capacity as int
}

/// The capacity that the windows of `s` give each instant they hold.
pub open spec fn step_fn(s: Seq<StateWindow>) -> spec_fn(int) -> int {
    |t: int| state_value(s, t)
}

/// Each window of a segmentation has the capacity that `state_value` reads there.
pub proof fn lemma_state_value(s: Seq<StateWindow>, a: int, b: int)
    requires
        segmentation(s, a, b),
    ensures
        values_match(s, step_fn(s)),
{
    lemma_segmentation_order(s, a, b);
    assert forall|i: int, t: int| 0 <= i < s.len() && #[trigger] s[i].window.has(t) implies s[i].capacity == step_fn(s)(t) by {
        let j = choose|j: int| 0 <= j < s.len() && #[trigger] s[j].window.has(t);
        if j < i {
            assert(s[j].window.end <= s[i].window.start);
        } else if j > i {
            assert(s[i].window.end <= s[j].window.start);
        }
    }
}

/// Capacities that a segmentation matches agree with `state_value` inside it.
pub proof fn lemma_step_agrees(s: Seq<StateWindow>, a: int, b: int, f: spec_fn(int) -> int, t: int)
    requires
        segmentation(s, a, b),
        values_match(s, f),
        a <= t < b,
    ensures
        f(t) == state_value(s, t),
{
    lemma_state_value(s, a, b);
    lemma_segmentation_covers(s, a, b, t);
    let i = choose|i: int| 0 <= i < s.len() && (#[trigger] s[i].window.has(t));
    assert(s[i].capacity == f(t));
    assert(s[i].capacity == step_fn(s)(t));
}

/// The state windows of a calendar over a window, compiled once and then queried.
#[derive(Debug)]
pub struct TimeGridTimeline {
    pub source: Calendar,
    pub window: Window,
    pub states: Vec<StateWindow>,
}

/// The states cut the window into the state windows that the source
/// calendar computes for it.
pub open spec fn timeline_wf(tl: TimeGridTimeline) -> bool {
    &&& wf(tl.source)
    &&& valid_instant(tl.window.start as int)
    &&& valid_instant(tl.window.end as int)
    &&& tl.window.start <= tl.window.end
    &&& segmentation(tl.states@, tl.window.start as int, tl.window.end as int)
    &&& core_range(tl.window.start as int, tl.window.end as int) ==> values_match(
        tl.states@,
        |t: int| capacity_at(tl.source, t),
    )
    &&& !composite(tl.source) ==> values_match(tl.states@, |t: int| win_capacity(tl.source, t))
    &&& values_match(tl.states@, |t: int| query_value(tl.source, tl.window.start as int, t))
}

/// The capacity the timeline gives `t`.
pub open spec fn timeline_value(tl: TimeGridTimeline, t: int) -> int {
    state_value(tl.states@, t)
}

/// The window holds `t`.
pub open spec fn in_timeline(tl: TimeGridTimeline, t: int) -> bool {
    tl.window.start <= t < tl.window.end
}

/// The last change of the timeline's capacity after its start and before
/// `instant`, when `x` is some instant; else there is none.
pub open spec fn timeline_previous_found(tl: TimeGridTimeline, instant: int, x: Option<i64>) -> bool {
    let g = step_fn(tl.states@);
    match x {
        Some(x) => previous_change(g, tl.window.start as int, instant, x as int),
        None => forall|y: int| tl.window.start < y < instant ==> !#[trigger] change_at(g, y),
    }
}

/// The first change of the timeline's capacity after `instant` and before its
/// end, when `x` is some instant; else there is none.
pub open spec fn timeline_next_found(tl: TimeGridTimeline, instant: int, x: Option<i64>) -> bool {
    let g = step_fn(tl.states@);
    match x {
        Some(x) => next_change(g, instant, tl.window.end as int, x as int),
        None => forall|y: int| instant < y < tl.window.end ==> !#[trigger] change_at(g, y),
    }
}

/// The capacity changes where a state window other than the first starts.
pub proof fn lemma_start_change(s: Seq<StateWindow>, a: int, b: int, k: int)
    requires
        segmentation(s, a, b),
        0 < k < s.len(),
    ensures
        change_at(step_fn(s), s[k].window.start as int),
        a < s[k].window.start < b,
{
    lemma_state_value(s, a, b);
    lemma_segmentation_order(s, a, b);
    let y = s[k].window.start as int;
    assert(s[k - 1].window.end == y);
    assert(s[k - 1].window.has(y - 1));
    assert(s[k].window.has(y));
    assert(s[k - 1].capacity != s[k].capacity);
    assert(s[0].window.start < s[0].window.end);
}

/// Where the capacity changes inside a segmentation, a state window starts.
pub proof fn lemma_change_start(s: Seq<StateWindow>, a: int, b: int, y: int) -> (k: int)
    requires
        segmentation(s, a, b),
        a < y < b,
        change_at(step_fn(s), y),
    ensures
        0 < k < s.len(),
        s[k].window.start == y,
{
    lemma_state_value(s, a, b);
    lemma_segmentation_covers(s, a, b, y);
    let k = choose|k: int| 0 <= k < s.len() && (#[trigger] s[k].window.has(y));
    if s[k].window.start < y {
        assert(s[k].window.has(y - 1));
    }
    k
}

/// The capacity does not change strictly inside a state window.
pub proof fn lemma_no_change_inside(s: Seq<StateWindow>, a: int, b: int, k: int)
    requires
        segmentation(s, a, b),
        0 <= k < s.len(),
    ensures
        forall|y: int| s[k].window.start < y < s[k].window.end ==> !#[trigger] change_at(step_fn(s), y),
{
    lemma_state_value(s, a, b);
    assert forall|y: int| s[k].window.start < y < s[k].window.end implies !#[trigger] change_at(step_fn(s), y) by {
        assert(s[k].window.has(y));
        assert(s[k].window.has(y - 1));
    }
}

/// When no state window from `i + 1` through `idx` starts before `instant`
/// (other than at `a`), the capacity does not change after the start of window
/// `i` and before `instant`, which window `idx` holds.
pub proof fn lemma_no_change_after(s: Seq<StateWindow>, a: int, b: int, i: int, idx: int, instant: int)
    requires
        segmentation(s, a, b),
        0 <= i <= idx < s.len(),
        s[idx].window.has(instant),
        forall|j: int| i < j <= idx ==> !((#[trigger] s[j]).window.start != a && s[j].window.start < instant),
    ensures
        forall|y: int| s[i].window.start < y < instant ==> !#[trigger] change_at(step_fn(s), y),
{
    lemma_segmentation_order(s, a, b);
    assert forall|y: int| s[i].window.start < y < instant implies !#[trigger] change_at(step_fn(s), y) by {
        if change_at(step_fn(s), y) {
            assert(a <= s[i].window.start);
            assert(instant < b);
            let k = lemma_change_start(s, a, b, y);
            if k < i {
                assert(s[k].window.end <= s[i].window.start);
            } else if k > idx {
                assert(s[idx].window.end <= s[k].window.start);
            } else if k > i {
                assert(!(s[k].window.start != a && s[k].window.start < instant));
            }
        }
    }
}

/// How far the restriction of `s` to `[start, end)` reaches once the windows
/// from `first` up to `index` have been added.
pub open spec fn covered_to(s: Seq<StateWindow>, first: int, index: int, start: int, end: int) -> int {
    if index == first {
        start
    } else if s[index - 1].window.end < end {
        s[index - 1].window.end as int
    } else {
        end
    }
}

/// The end of a slot search: `search_until`, or the end of the window.
pub open spec fn slot_end(tl: TimeGridTimeline, search_until: Option<i64>) -> int {
    match search_until {
        Some(u) => u as int,
        None => tl.window.end as int,
    }
}

/// The instants where the timeline's capacity is at least `m`.
pub open spec fn timeline_level(tl: TimeGridTimeline, m: int) -> spec_fn(int) -> bool {
    |t: int| timeline_value(tl, t) >= m
}

/// What the analysis of `instant` against the timeline holds.
pub open spec fn timeline_analysis_found(tl: TimeGridTimeline, instant: int, include_matches: bool, an: TimeGridInstantAnalysis) -> bool {
    &&& an.instant == instant
    &&& an.capacity == timeline_value(tl, instant)
    &&& an.current_window matches Some(w) && constant_run(
        step_fn(tl.states@),
        tl.window.start as int,
        tl.window.end as int,
        instant,
        w,
    )
    &&& timeline_previous_found(tl, instant, an.previous_transition)
    &&& timeline_next_found(tl, instant, an.next_transition)
    &&& include_matches ==> crate::around::windows_found(tl.source, instant, None, an.matches@)
    &&& !include_matches ==> an.matches@.len() == 0
}

/// The range error of `[start, end)` against the window `w`, if any.
pub open spec fn range_error(w: Window, start: int, end: int) -> Option<TimeGridError> {
    if end < start {
        Some(TimeGridError::EndBeforeStart)
    } else if start < w.start || end > w.end {
        Some(TimeGridError::RangeOutsideTimeline)
    } else {
        None
    }
}

/// What the search for the first slot in a timeline gives: the errors of the
/// calendar's search, an error when the range leaves the timeline, and else
/// the first slot of `duration` from `start` before the end of the search in
/// which the timeline's capacity stays at least `minimum_capacity`.
pub open spec fn timeline_slot_found(
    tl: TimeGridTimeline,
    start: i64,
    duration: i128,
    minimum_capacity: i32,
    search_until: Option<i64>,
    r: Result<Option<Window>, TimeGridError>,
) -> bool {
    let u = slot_end(tl, search_until);
    let q = timeline_level(tl, minimum_capacity as int);
    &&& duration < 0 ==> r == Err::<Option<Window>, TimeGridError>(TimeGridError::NegativeDuration)
    &&& duration >= 0 && minimum_capacity <= 0 ==> r == Err::<Option<Window>, TimeGridError>(
        TimeGridError::RequiredCapacityNotPositive,
    )
    &&& duration >= 0 && minimum_capacity > 0 ==> (range_error(tl.window, start as int, u) matches Some(e)
        ==> r == Err::<Option<Window>, TimeGridError>(e))
    &&& duration >= 0 && minimum_capacity > 0 && range_error(tl.window, start as int, u) is None ==> r is Ok
    &&& r matches Ok(Some(w)) ==> start <= w.start && w.end == w.start + duration && w.end <= u && w.start < u
    &&& r matches Ok(Some(w)) ==> slot_at(w.start as int, duration as int, q)
    &&& duration == 0 ==> (r matches Ok(Some(w)) ==> first_from(start as int, w.start as int, q))
    &&& duration == 0 ==> (r matches Ok(None) ==> forall|t: int| start <= t < u ==> !#[trigger] q(t))
    &&& duration > 0 ==> (r matches Ok(Some(w)) ==> forall|s: int| start <= s < w.start ==> !#[trigger] slot_at(
        s,
        duration as int,
        q,
    ))
    &&& duration > 0 ==> (r matches Ok(None) ==> forall|s: int| start <= s && s + duration <= u ==> !#[trigger] slot_at(
        s,
        duration as int,
        q,
    ))
}

/// The windows of a segmentation whose state `keep` accepts, merged.
fn filter_where<F: Fn(StateWindow) -> bool>(
    states: &Vec<StateWindow>,
    predicate: F,
    Ghost(keep): Ghost<spec_fn(int) -> bool>,
    query: Window,
) -> (r: Vec<Window>)
    requires
        segmentation(states@, query.start as int, query.end as int),
        forall|st: StateWindow| predicate.requires((st,)),
        forall|st: StateWindow, b: bool| predicate.ensures((st,), b) ==> b == keep(st.capacity as int),
    ensures
        canonical(r@),
        within(r@, query),
        forall|t: int| #[trigger] covers_at(r@, t) <==> exists|i: int| 0 <= i < states@.len() && (#[trigger] states@[i]).window.has(t) && keep(states@[i].capacity as int),
{
    let mut selected: Vec<Window> = Vec::new();
    let mut i: usize = 0;
    while i < states.len()
        invariant
            i <= states.len(),
            segmentation(states@, query.start as int, query.end as int),
            forall|st: StateWindow| predicate.requires((st,)),
            forall|st: StateWindow, b: bool| predicate.ensures((st,), b) ==> b == keep(st.capacity as int),
            forall|t: int| #[trigger] covers_at(selected@, t) <==> exists|j: int| 0 <= j < i && (#[trigger] states@[j]).window.has(t) && keep(states@[j].capacity as int),
            forall|k: int| 0 <= k < selected.len() ==> query.start <= (#[trigger] selected@[k]).start && selected@[k].end <= query.end,
        decreases states.len() - i,
    {
        let ghost old_s = selected@;
        let st = states[i];
        if predicate(st) {
            selected.push(st.window);
        }
        proof {
            assert forall|t: int| #[trigger] covers_at(selected@, t) <==> exists|j: int| 0 <= j < i + 1 && (#[trigger] states@[j]).window.has(t) && keep(states@[j].capacity as int) by {
                if covers_at(selected@, t) {
                    let m = choose|m: int| 0 <= m < selected@.len() && (#[trigger] selected@[m]).has(t);
                    if m < old_s.len() {
                        assert(old_s[m] == selected@[m]);
                        assert(covers_at(old_s, t));
                    } else {
                        assert(states@[i as int].window.has(t));
                    }
                }
                if exists|j: int| 0 <= j < i + 1 && (#[trigger] states@[j]).window.has(t) && keep(states@[j].capacity as int) {
                    let j = choose|j: int| 0 <= j < i + 1 && (#[trigger] states@[j]).window.has(t) && keep(states@[j].capacity as int);
                    if j < i {
                        assert(covers_at(old_s, t));
                        let m = choose|m: int| 0 <= m < old_s.len() && (#[trigger] old_s[m]).has(t);
                        assert(selected@[m] == old_s[m]);
                    } else {
                        assert(selected@[selected@.len() - 1].has(t));
                    }
                }
            }
        }
        i = i + 1;
    }
    let r = merge(selected);
    proof {
        assert forall|k: int| 0 <= k < r.len() implies query.start <= (#[trigger] r@[k]).start && r@[k].end <= query.end by {
            let a = choose|j: int| 0 <= j < selected.len() && (#[trigger] selected@[j]).start == r@[k].start;
            let b = choose|j: int| 0 <= j < selected.len() && (#[trigger] selected@[j]).end == r@[k].end;
        }
    }
    r
}

impl TimeGridTimeline {
    /// Compiles the state windows of `calendar` over `[start, end)`.
    pub fn compile(calendar: &Calendar, start: i64, end: i64) -> (r: Result<TimeGridTimeline, TimeGridError>)
        requires
            wf(*calendar),
            valid_instant(start as int),
            valid_instant(end as int),
        ensures
            end < start ==> r == Err::<TimeGridTimeline, TimeGridError>(TimeGridError::EndBeforeStart),
            start <= end ==> r is Ok,
            r matches Ok(tl) ==> timeline_wf(tl) && tl.window == (Window { start, end }) && same_calendar(
                tl.source,
                *calendar,
            ),
            r matches Ok(tl) ==> (core_range(start as int, end as int) ==> forall|t: int|
                start <= t < end ==> #[trigger] timeline_value(tl, t) == capacity_at(*calendar, t)),
            r matches Ok(tl) ==> (!composite(*calendar) ==> forall|t: int|
                start <= t < end ==> #[trigger] timeline_value(tl, t) == win_capacity(*calendar, t)),
            r matches Ok(tl) ==> forall|t: int|
                start <= t < end ==> #[trigger] timeline_value(tl, t) == query_value(*calendar, start as int, t),
    {
        Window::new(start, end)?;
        let source = calendar.duplicate();
        proof {
            lemma_same_calendar(source, *calendar);
        }
        let states = source.get_state_windows(start, end)?;
        let tl = TimeGridTimeline { source, window: Window { start, end }, states };
        proof {
            lemma_same_state_value(tl.source, *calendar, start as int);
            assert forall|t: int| start <= t < end implies #[trigger] timeline_value(tl, t) == query_value(
                *calendar,
                start as int,
                t,
            ) by {
                lemma_step_agrees(tl.states@, start as int, end as int, |t: int| query_value(tl.source, start as int, t), t);
            }
            if core_range(start as int, end as int) {
                assert forall|t: int| start <= t < end implies #[trigger] timeline_value(tl, t) == capacity_at(
                    *calendar,
                    t,
                ) by {
                    lemma_step_agrees(tl.states@, start as int, end as int, |t: int| capacity_at(tl.source, t), t);
                }
            }
            if !composite(*calendar) {
                assert forall|t: int| start <= t < end implies #[trigger] timeline_value(tl, t) == win_capacity(
                    *calendar,
                    t,
                ) by {
                    lemma_step_agrees(tl.states@, start as int, end as int, |t: int| win_capacity(tl.source, t), t);
                    assert(tl.source.entries@ == calendar.entries@);
                }
            }
        }
        Ok(tl)
    }

    /// The window the timeline covers.
    pub fn Window(&self) -> (r: Window)
        ensures
            r == self.window,
    {
        self.window
    }

    /// The index of the first state window ending after `value`.
    fn first_state_ending_after(&self, value: i64) -> (r: usize)
        requires
            timeline_wf(*self),
        ensures
            r <= self.states@.len(),
            forall|i: int| 0 <= i < r ==> (#[trigger] self.states@[i]).window.end <= value,
            forall|i: int| r <= i < self.states@.len() ==> (#[trigger] self.states@[i]).window.end > value,
    {
        proof {
            lemma_segmentation_order(self.states@, self.window.start as int, self.window.end as int);
        }
        let mut low: usize = 0;
        let mut high: usize = self.states.len();
        while low < high
            invariant
                low <= high <= self.states@.len(),
                forall|i: int, j: int| 0 <= i < j < self.states@.len() ==> (#[trigger] self.states@[i]).window.end
                    < (#[trigger] self.states@[j]).window.end,
                forall|i: int| 0 <= i < low ==> (#[trigger] self.states@[i]).window.end <= value,
                forall|i: int| high <= i < self.states@.len() ==> (#[trigger] self.states@[i]).window.end > value,
            decreases high - low,
        {
            let mid = low + (high - low) / 2;
            if self.states[mid].window.end <= value {
                low = mid + 1;
            } else {
                high = mid;
            }
        }
        low
    }

    /// The index of the state window holding `instant`; fails outside the window.
    fn state_index_at(&self, instant: i64) -> (r: Result<usize, TimeGridError>)
        requires
            timeline_wf(*self),
        ensures
            !in_timeline(*self, instant as int) ==> r == Err::<usize, TimeGridError>(TimeGridError::OutsideTimeline),
            in_timeline(*self, instant as int) ==> r is Ok,
            r matches Ok(i) ==> i < self.states@.len() && self.states@[i as int].window.has(instant as int),
    {
        if instant < self.window.start || instant >= self.window.end {
            return Err(TimeGridError::OutsideTimeline);
        }
        let index = self.first_state_ending_after(instant);
        proof {
            lemma_segmentation_order(self.states@, self.window.start as int, self.window.end as int);
            lemma_segmentation_covers(self.states@, self.window.start as int, self.window.end as int, instant as int);
            let j = choose|j: int| 0 <= j < self.states@.len() && (#[trigger] self.states@[j]).window.has(instant as int);
            assert(j >= index);
            if index < j {
                assert(self.states@[index as int].window.end <= self.states@[j].window.start);
            }
        }
        if index >= self.states.len() || !self.states[index].window.contains(instant) {
            return Err(TimeGridError::OutsideTimeline);
        }
        Ok(index)
    }

    /// The state window holding `instant`; fails outside the window.
    fn state_at(&self, instant: i64) -> (r: Result<StateWindow, TimeGridError>)
        requires
            timeline_wf(*self),
        ensures
            !in_timeline(*self, instant as int) ==> r == Err::<StateWindow, TimeGridError>(TimeGridError::OutsideTimeline),
            in_timeline(*self, instant as int) ==> r is Ok,
            r matches Ok(st) ==> st.window.has(instant as int) && st.capacity == timeline_value(*self, instant as int),
    {
        let index = self.state_index_at(instant)?;
        proof {
            lemma_state_value(self.states@, self.window.start as int, self.window.end as int);
            assert(self.states@[index as int].window.has(instant as int));
        }
        Ok(self.states[index])
    }

    /// The capacity at `instant`; fails outside the window.
    pub fn GetCapacityAt(&self, instant: i64) -> (r: Result<i32, TimeGridError>)
        requires
            timeline_wf(*self),
        ensures
            !in_timeline(*self, instant as int) ==> r == Err::<i32, TimeGridError>(TimeGridError::OutsideTimeline),
            in_timeline(*self, instant as int) ==> r == Ok::<i32, TimeGridError>(
                timeline_value(*self, instant as int) as i32,
            ),
            r matches Ok(c) ==> c == timeline_value(*self, instant as int),
            r matches Ok(c) ==> (core_range(self.window.start as int, self.window.end as int) ==> c == capacity_at(
                self.source,
                instant as int,
            )),
            r matches Ok(c) ==> (!composite(self.source) ==> c == win_capacity(self.source, instant as int)),
    {
        let st = self.state_at(instant)?;
        proof {
            if core_range(self.window.start as int, self.window.end as int) {
                lemma_step_agrees(self.states@, self.window.start as int, self.window.end as int, |t: int| capacity_at(self.source, t), instant as int);
            }
            if !composite(self.source) {
                lemma_step_agrees(self.states@, self.window.start as int, self.window.end as int, |t: int| win_capacity(self.source, t), instant as int);
            }
        }
        Ok(st.capacity)
    }

    /// The capacities at each of `instants`; fails when one lies outside the window.
    pub fn GetCapacitiesAt(&self, instants: Vec<i64>) -> (r: Result<Vec<i32>, TimeGridError>)
        requires
            timeline_wf(*self),
        ensures
            (forall|k: int| 0 <= k < instants@.len() ==> in_timeline(*self, #[trigger] instants@[k] as int)) <==> r is Ok,
            r is Err ==> r == Err::<Vec<i32>, TimeGridError>(TimeGridError::OutsideTimeline),
            r matches Ok(cs) ==> cs@.len() == instants@.len() && forall|k: int| 0 <= k < instants@.len() ==> #[trigger] cs@[k]
                == timeline_value(*self, instants@[k] as int),
    {
        let mut result: Vec<i32> = Vec::new();
        let mut k: usize = 0;
        while k < instants.len()
            invariant
                timeline_wf(*self),
                k <= instants@.len(),
                result@.len() == k,
                forall|j: int| 0 <= j < k ==> in_timeline(*self, #[trigger] instants@[j] as int),
                forall|j: int| 0 <= j < k ==> #[trigger] result@[j] == timeline_value(*self, instants@[j] as int),
            decreases instants@.len() - k,
        {
            let c = match self.GetCapacityAt(instants[k]) {
                Ok(c) => c,
                Err(e) => {
                    return Err(e);
                },
            };
            result.push(c);
            k = k + 1;
        }
        Ok(result)
    }

    /// The instant allows work; fails outside the window.
    pub fn CanWork(&self, instant: i64) -> (r: Result<bool, TimeGridError>)
        requires
            timeline_wf(*self),
        ensures
            !in_timeline(*self, instant as int) ==> r == Err::<bool, TimeGridError>(TimeGridError::OutsideTimeline),
            in_timeline(*self, instant as int) ==> r == Ok::<bool, TimeGridError>(timeline_value(*self, instant as int) > 0),
    {
        Ok(self.GetCapacityAt(instant)? > 0)
    }

    /// The last state start before `instant`, other than the window's start.
    #[verifier::spinoff_prover]
    fn previous_transition(&self, state_index: usize, instant: i64) -> (r: Option<i64>)
        requires
            timeline_wf(*self),
            state_index < self.states@.len(),
            self.states@[state_index as int].window.has(instant as int),
        ensures
            timeline_previous_found(*self, instant as int, r),
    {
        let ghost a = self.window.start as int;
        let ghost b = self.window.end as int;
        let ghost s = self.states@;
        let n = self.states.len();
        let mut i: usize = state_index + 1;
        while i > 0
            invariant
                segmentation(s, a, b),
                s == self.states@,
                a == self.window.start,
                b == self.window.end,
                0 <= i <= state_index + 1,
                state_index < s.len(),
                s[state_index as int].window.has(instant as int),
                forall|j: int| i <= j <= state_index ==> !((#[trigger] s[j]).window.start != a && s[j].window.start < instant),
            decreases i,
        {
            i = i - 1;
            let candidate = self.states[i].window.start;
            if candidate != self.window.start && candidate < instant {
                proof {
                    assert(i > 0);
                    lemma_start_change(s, a, b, i as int);
                    lemma_no_change_after(s, a, b, i as int, state_index as int, instant as int);
                }
                return Some(candidate);
            }
        }
        proof {
            lemma_no_change_after(s, a, b, 0, state_index as int, instant as int);
        }
        None
    }

    /// The end of the state window holding `instant`, unless it is the window's end.
    fn next_transition(&self, state_index: usize, instant: i64) -> (r: Option<i64>)
        requires
            timeline_wf(*self),
            state_index < self.states@.len(),
            self.states@[state_index as int].window.has(instant as int),
        ensures
            timeline_next_found(*self, instant as int, r),
    {
        let ghost a = self.window.start as int;
        let ghost b = self.window.end as int;
        let ghost s = self.states@;
        let mut i: usize = state_index;
        while i < self.states.len()
            invariant
                segmentation(s, a, b),
                s == self.states@,
                a == self.window.start,
                b == self.window.end,
                state_index <= i <= s.len(),
                state_index < s.len(),
                s[state_index as int].window.has(instant as int),
                i > state_index ==> s[state_index as int].window.end == b,
            decreases s.len() - i,
        {
            let candidate = self.states[i].window.end;
            if candidate != self.window.end && candidate > instant {
                proof {
                    lemma_segmentation_order(s, a, b);
                    if i > state_index {
                        assert(s[state_index as int].window.end <= s[i as int].window.start);
                    }
                    assert(i == state_index);
                    assert(i < s.len() - 1);
                    assert(s[i as int].window.end == s[i + 1].window.start);
                    lemma_start_change(s, a, b, i + 1);
                    lemma_no_change_inside(s, a, b, state_index as int);
                }
                return Some(candidate);
            }
            proof {
                if i == state_index {
                    assert(candidate == b);
                } else {
                    lemma_segmentation_order(s, a, b);
                    assert(s[state_index as int].window.end <= s[i as int].window.start);
                }
            }
            i = i + 1;
        }
        proof {
            lemma_no_change_inside(s, a, b, state_index as int);
        }
        None
    }

    /// The analysis of `instant` against the compiled states: its capacity, its
    /// state window, the transitions inside the window on either side, and,
    /// when asked, the matching windows of the source calendar.
    pub fn instant_analysis(&self, instant: i64, include_matches: bool) -> (r: Result<TimeGridInstantAnalysis, TimeGridError>)
        requires
            timeline_wf(*self),
            include_matches && in_timeline(*self, instant as int) ==> radius_fits(instant as int, None),
        ensures
            !in_timeline(*self, instant as int) ==> r == Err::<TimeGridInstantAnalysis, TimeGridError>(
                TimeGridError::OutsideTimeline,
            ),
            in_timeline(*self, instant as int) ==> r is Ok,
            r matches Ok(an) ==> timeline_analysis_found(*self, instant as int, include_matches, an),
    {
        let index = self.state_index_at(instant)?;
        let state = self.states[index];
        let ghost a = self.window.start as int;
        let ghost b = self.window.end as int;
        let ghost s = self.states@;
        let ghost g = step_fn(s);
        proof {
            lemma_state_value(s, a, b);
            lemma_segmentation_order(s, a, b);
            let i = index as int;
            assert(state.capacity == g(instant as int));
            assert forall|t: int| state.window.start <= t < state.window.end implies #[trigger] g(t) == g(instant as int) by {
                assert(s[i].window.has(t));
            }
            if state.window.start != a {
                assert(i > 0);
                assert(s[i - 1].window.end == state.window.start);
                assert(s[i - 1].window.has(state.window.start - 1));
            }
            if state.window.end != b {
                assert(i < s.len() - 1);
                assert(s[i + 1].window.start == state.window.end);
                assert(s[i + 1].window.has(state.window.end as int));
            }
            assert(a <= state.window.start);
            assert(state.window.end <= b);
        }
        let previous_transition = self.previous_transition(index, instant);
        let next_transition = self.next_transition(index, instant);
        let matches = if include_matches {
            self.source.get_windows_at(instant, None)?
        } else {
            Vec::new()
        };
        Ok(TimeGridInstantAnalysis {
            instant,
            capacity: state.capacity,
            current_window: Some(state.window),
            previous_transition,
            next_transition,
            matches,
        })
    }

    /// Fails when `[start, end)` is reversed or leaves the window.
    fn ensure_range(&self, start: i64, end: i64) -> (r: Result<(), TimeGridError>)
        ensures
            r == match range_error(self.window, start as int, end as int) {
                Some(e) => Err::<(), TimeGridError>(e),
                None => Ok(()),
            },
    {
        Window::new(start, end)?;
        if start < self.window.start || end > self.window.end {
            return Err(TimeGridError::RangeOutsideTimeline);
        }
        Ok(())
    }

    /// The compiled states restricted to `[start, end)`.
    #[verifier::spinoff_prover]
    fn get_state_windows(&self, start: i64, end: i64) -> (r: Result<Vec<StateWindow>, TimeGridError>)
        requires
            timeline_wf(*self),
        ensures
            range_error(self.window, start as int, end as int) matches Some(e) ==> r == Err::<Vec<StateWindow>, TimeGridError>(e),
            range_error(self.window, start as int, end as int) is None ==> r is Ok,
            r matches Ok(v) ==> segmentation(v@, start as int, end as int) && values_match(v@, step_fn(self.states@)),
    {
        self.ensure_range(start, end)?;
        if start == end {
            return Ok(Vec::new());
        }
        let ghost s = self.states@;
        let ghost a = self.window.start as int;
        let ghost b = self.window.end as int;
        let first = self.first_state_ending_after(start);
        proof {
            lemma_state_value(s, a, b);
            lemma_segmentation_order(s, a, b);
            lemma_segmentation_covers(s, a, b, start as int);
            let j = choose|j: int| 0 <= j < s.len() && (#[trigger] s[j]).window.has(start as int);
            assert(j >= first);
            if first < j {
                assert(s[first as int].window.end <= s[j].window.start);
            }
        }
        let mut result: Vec<StateWindow> = Vec::new();
        let mut index = first;
        while index < self.states.len() && self.states[index].window.start < end
            invariant
                timeline_wf(*self),
                s == self.states@,
                a == self.window.start,
                b == self.window.end,
                a <= start < end <= b,
                first < s.len(),
                s[first as int].window.has(start as int),
                first <= index <= s.len(),
                values_match(s, step_fn(s)),
                forall|i: int, j: int| 0 <= i < j < s.len() ==> (#[trigger] s[i]).window.end <= (#[trigger] s[j]).window.start,
                segmentation(result@, start as int, covered_to(s, first as int, index as int, start as int, end as int)),
                values_match(result@, step_fn(s)),
            decreases s.len() - index,
        {
            let st = self.states[index];
            let ghost cur = covered_to(s, first as int, index as int, start as int, end as int);
            proof {
                if index > first {
                    assert(s[index - 1].window.end == s[index as int].window.start);
                    if index - 1 > first {
                        assert(s[first as int].window.end <= s[index - 1].window.start);
                    }
                    assert(s[index - 1].window.end > start);
                }
                assert(st.window.meet(Window { start, end }).start == cur);
            }
            let q = Window { start, end };
            match st.window.intersect(q) {
                Some(window) => {
                    proof {
                        assert forall|t: int| window.start <= t < window.end implies #[trigger] step_fn(s)(t) == st.capacity by {
                            assert(s[index as int].window.has(t));
                        }
                        lemma_append_state(result@, start as int, window.start, window.end, st.capacity, step_fn(s));
                    }
                    add_state_window(&mut result, StateWindow { window, capacity: st.capacity });
                },
                None => {},
            }
            index = index + 1;
        }
        proof {
            if index < s.len() {
                assert(index > first);
                assert(s[index - 1].window.end == s[index as int].window.start);
            }
        }
        Ok(result)
    }

    /// The compiled states restricted to `[start, end)`; fails when the range is
    /// reversed or leaves the window.
    pub fn GetStateWindows(&self, start: i64, end: i64) -> (r: Result<Vec<StateWindow>, TimeGridError>)
        requires
            timeline_wf(*self),
        ensures
            range_error(self.window, start as int, end as int) matches Some(e) ==> r == Err::<Vec<StateWindow>, TimeGridError>(e),
            range_error(self.window, start as int, end as int) is None ==> r is Ok,
            r matches Ok(v) ==> segmentation(v@, start as int, end as int) && values_match(v@, step_fn(self.states@)),
            r matches Ok(v) ==> (core_range(self.window.start as int, self.window.end as int) ==> values_match(
                v@,
                |t: int| capacity_at(self.source, t),
            )),
    {
        let v = self.get_state_windows(start, end)?;
        proof {
            if core_range(self.window.start as int, self.window.end as int) {
                assert forall|i: int, t: int| 0 <= i < v@.len() && #[trigger] v@[i].window.has(t) implies v@[i].capacity == capacity_at(self.source, t) by {
                    lemma_segmentation_order(v@, start as int, end as int);
                    lemma_step_agrees(self.states@, self.window.start as int, self.window.end as int, |t: int| capacity_at(self.source, t), t);
                }
            }
        }
        Ok(v)
    }

    /// The canonical windows of `[start, end)` whose state `keep` accepts.
    fn windows_where<F: Fn(StateWindow) -> bool>(
        &self,
        start: i64,
        end: i64,
        predicate: F,
        Ghost(keep): Ghost<spec_fn(int) -> bool>,
    ) -> (r: Result<Vec<Window>, TimeGridError>)
        requires
            timeline_wf(*self),
            forall|st: StateWindow| predicate.requires((st,)),
            forall|st: StateWindow, b: bool| predicate.ensures((st,), b) ==> b == keep(st.capacity as int),
        ensures
            range_error(self.window, start as int, end as int) matches Some(e) ==> r == Err::<Vec<Window>, TimeGridError>(e),
            range_error(self.window, start as int, end as int) is None ==> r is Ok,
            r matches Ok(ws) ==> canonical(ws@) && within(ws@, Window { start, end }),
            r matches Ok(ws) ==> forall|t: int| start <= t < end ==> (#[trigger] covers_at(ws@, t) <==> keep(
                timeline_value(*self, t),
            )),
    {
        let states = self.get_state_windows(start, end)?;
        let r = filter_where(&states, predicate, Ghost(keep), Window { start, end });
        proof {
            assert forall|t: int| start <= t < end implies (#[trigger] covers_at(r@, t) <==> keep(timeline_value(*self, t))) by {
                lemma_segmentation_covers(states@, start as int, end as int, t);
                let i = choose|i: int| 0 <= i < states@.len() && (#[trigger] states@[i]).window.has(t);
                assert(states@[i].capacity == step_fn(self.states@)(t));
                if covers_at(r@, t) {
                    let j = choose|j: int| 0 <= j < states@.len() && (#[trigger] states@[j]).window.has(t) && keep(states@[j].capacity as int);
                    assert(states@[j].capacity == step_fn(self.states@)(t));
                }
            }
        }
        Ok(r)
    }

    /// The canonical windows of `[start, end)` that allow work.
    pub fn GetOpenWindows(&self, start: i64, end: i64) -> (r: Result<Vec<Window>, TimeGridError>)
        requires
            timeline_wf(*self),
        ensures
            range_error(self.window, start as int, end as int) matches Some(e) ==> r == Err::<Vec<Window>, TimeGridError>(e),
            range_error(self.window, start as int, end as int) is None ==> r is Ok,
            r matches Ok(ws) ==> canonical(ws@) && within(ws@, Window { start, end }),
            r matches Ok(ws) ==> forall|t: int| start <= t < end ==> (#[trigger] covers_at(ws@, t) <==> timeline_value(*self, t) > 0),
    {
        self.windows_where(
            start,
            end,
            (|st: StateWindow| -> (b: bool)
                ensures
                    b == (st.capacity > 0),
                { st.capacity > 0 }),
            Ghost(|c: int| c > 0),
        )
    }

    /// The canonical windows of `[start, end)` with zero capacity.
    pub fn GetUnavailableWindows(&self, start: i64, end: i64) -> (r: Result<Vec<Window>, TimeGridError>)
        requires
            timeline_wf(*self),
        ensures
            range_error(self.window, start as int, end as int) matches Some(e) ==> r == Err::<Vec<Window>, TimeGridError>(e),
            range_error(self.window, start as int, end as int) is None ==> r is Ok,
            r matches Ok(ws) ==> canonical(ws@) && within(ws@, Window { start, end }),
            r matches Ok(ws) ==> forall|t: int| start <= t < end ==> (#[trigger] covers_at(ws@, t) <==> timeline_value(*self, t) == 0),
    {
        self.windows_where(
            start,
            end,
            (|st: StateWindow| -> (b: bool)
                ensures
                    b == (st.capacity == 0),
                { st.capacity == 0 }),
            Ghost(|c: int| c == 0),
        )
    }

    /// The canonical windows of `[start, end)` with capacity at least
    /// `minimum_capacity`, which must be positive.
    pub fn GetCapacityWindows(&self, start: i64, end: i64, minimum_capacity: i32) -> (r: Result<Vec<Window>, TimeGridError>)
        requires
            timeline_wf(*self),
        ensures
            minimum_capacity <= 0 ==> r == Err::<Vec<Window>, TimeGridError>(TimeGridError::RequiredCapacityNotPositive),
            minimum_capacity > 0 ==> (range_error(self.window, start as int, end as int) matches Some(e) ==> r == Err::<Vec<Window>, TimeGridError>(e)),
            minimum_capacity > 0 && range_error(self.window, start as int, end as int) is None ==> r is Ok,
            r matches Ok(ws) ==> canonical(ws@) && within(ws@, Window { start, end }),
            r matches Ok(ws) ==> forall|t: int| start <= t < end ==> (#[trigger] covers_at(ws@, t) <==> timeline_value(*self, t) >= minimum_capacity),
    {
        crate::calendar::validate_positive_capacity(minimum_capacity)?;
        self.windows_where(
            start,
            end,
            (|st: StateWindow| -> (b: bool)
                ensures
                    b == (st.capacity >= minimum_capacity),
                { st.capacity >= minimum_capacity }),
            Ghost(|c: int| c >= minimum_capacity),
        )
    }

    /// The working time in `[start, end)`: the total length of its working states.
    pub fn GetWorkingDuration(&self, start: i64, end: i64) -> (r: Result<i128, TimeGridError>)
        requires
            timeline_wf(*self),
        ensures
            range_error(self.window, start as int, end as int) matches Some(e) ==> r == Err::<i128, TimeGridError>(e),
            range_error(self.window, start as int, end as int) is None ==> r is Ok,
            r matches Ok(d) ==> d == count_where(start as int, end as int, works(step_fn(self.states@))),
    {
        let states = self.get_state_windows(start, end)?;
        let total = working_span(&states, Ghost(start as int), Ghost(end as int));
        proof {
            lemma_work_span(states@, start as int, end as int, step_fn(self.states@));
        }
        Ok(total)
    }

    /// The analysis of `[start, end)`: its compiled states.
    pub fn AnalyzeRange(&self, start: i64, end: i64) -> (r: Result<TimeGridTimelineAnalysis, TimeGridError>)
        requires
            timeline_wf(*self),
        ensures
            range_error(self.window, start as int, end as int) matches Some(e) ==> r == Err::<TimeGridTimelineAnalysis, TimeGridError>(e),
            range_error(self.window, start as int, end as int) is None ==> r is Ok,
            r matches Ok(an) ==> an.window == (Window { start, end }) && analysis_wf(an) && values_match(
                an.segments@,
                step_fn(self.states@),
            ),
    {
        let window = Window::new(start, end)?;
        let segments = self.get_state_windows(start, end)?;
        Ok(TimeGridTimelineAnalysis { window, segments })
    }

    /// The first window of `duration` inside `[start, search_until)` (the end
    /// of the window by default) whose capacity is at least `minimum_capacity`
    /// throughout; for a zero duration, the empty window at the first such instant.
    /// A compiled timeline answers as its calendar does, so a required capacity
    /// that is not positive is refused here as the calendar's search refuses it.
    pub fn FindFirstSlot(&self, start: i64, duration: i128, minimum_capacity: i32, search_until: Option<i64>) -> (r: Result<Option<Window>, TimeGridError>)
        requires
            timeline_wf(*self),
        ensures
            timeline_slot_found(*self, start, duration, minimum_capacity, search_until, r),
    {
        if duration < 0 {
            return Err(TimeGridError::NegativeDuration);
        }
        crate::calendar::validate_positive_capacity(minimum_capacity)?;
        let end = match search_until {
            Some(u) => u,
            None => self.window.end,
        };
        let ghost q = timeline_level(*self, minimum_capacity as int);
        let ghost d = duration as int;
        let windows = self.windows_where(
            start,
            end,
            (|st: StateWindow| -> (b: bool)
                ensures
                    b == (st.capacity >= minimum_capacity),
                { st.capacity >= minimum_capacity }),
            Ghost(|c: int| c >= minimum_capacity),
        )?;
        let chunk = Window { start, end };
        proof {
            assert forall|t: int| chunk.start <= t < chunk.end implies (#[trigger] covers_at(windows@, t) <==> q(t)) by {
                assert(covers_at(windows@, t) <==> timeline_value(*self, t) >= minimum_capacity);
            }
        }
        let mut j: usize = 0;
        while j < windows.len()
            invariant
                canonical(windows@),
                within(windows@, chunk),
                chunk == (Window { start, end }),
                j <= windows.len(),
                d == duration,
                0 <= duration,
                d == 0 ==> j == 0,
                minimum_capacity > 0,
                q == timeline_level(*self, minimum_capacity as int),
                end == slot_end(*self, search_until),
                range_error(self.window, start as int, end as int) is None,
                forall|n: int| 0 <= n < j ==> (#[trigger] windows@[n]).end - windows@[n].start < d,
                forall|t: int| chunk.start <= t < chunk.end ==> (#[trigger] covers_at(windows@, t) <==> q(t)),
            decreases windows.len() - j,
        {
            let w = windows[j];
            if duration == 0 {
                proof {
                    assert(covers_at(windows@, w.start as int));
                    assert forall|t: int| start <= t < w.start implies !#[trigger] q(t) by {
                        if covers_at(windows@, t) {
                            let n = choose|n: int| 0 <= n < windows@.len() && (#[trigger] windows@[n]).has(t);
                            if n > 0 {
                                assert(windows@[0].end < windows@[n].start);
                            }
                        }
                    }
                }
                return Ok(Some(Window { start: w.start, end: w.start }));
            }
            if w.duration() >= duration {
                let slot = Window { start: w.start, end: (w.start as i128 + duration) as i64 };
                proof {
                    assert forall|t: int| w.start <= t < w.start + d implies #[trigger] q(t) by {
                        assert(w.has(t));
                        assert(covers_at(windows@, t));
                    }
                    assert forall|x: int| start <= x < w.start implies !#[trigger] slot_at(x, d, q) by {
                        if slot_at(x, d, q) {
                            assert(q(x));
                            assert(covers_at(windows@, x));
                            let n = choose|n: int| 0 <= n < windows@.len() && (#[trigger] windows@[n]).has(x);
                            if n > j {
                                assert(w.end < windows@[n].start);
                            }
                            lemma_run_extends(windows@, chunk, q, n, x, x + d);
                        }
                    }
                }
                return Ok(Some(slot));
            }
            j = j + 1;
        }
        proof {
            if d == 0 {
                assert forall|t: int| start <= t < end implies !#[trigger] q(t) by {
                    assert(!covers_at(windows@, t));
                }
            } else {
                assert forall|x: int| start <= x && x + d <= end implies !#[trigger] slot_at(x, d, q) by {
                    if slot_at(x, d, q) {
                        assert(q(x));
                        assert(covers_at(windows@, x));
                        let n = choose|n: int| 0 <= n < windows@.len() && (#[trigger] windows@[n]).has(x);
                        lemma_run_extends(windows@, chunk, q, n, x, x + d);
                    }
                }
            }
        }
        Ok(None)
    }

    /// The analyses of each of `instants`; fails when one lies outside the window.
    pub fn AnalyzeMany(&self, instants: Vec<i64>, include_matches: bool) -> (r: Result<Vec<TimeGridInstantAnalysis>, TimeGridError>)
        requires
            timeline_wf(*self),
            forall|k: int| 0 <= k < instants@.len() ==> (include_matches && (forall|j: int| 0 <= j <= k ==> in_timeline(
                *self,
                #[trigger] instants@[j] as int,
            )) ==> radius_fits(#[trigger] instants@[k] as int, None)),
        ensures
            (forall|k: int| 0 <= k < instants@.len() ==> in_timeline(*self, #[trigger] instants@[k] as int)) <==> r is Ok,
            r is Err ==> r == Err::<Vec<TimeGridInstantAnalysis>, TimeGridError>(TimeGridError::OutsideTimeline),
            r matches Ok(v) ==> v@.len() == instants@.len() && forall|k: int| 0 <= k < instants@.len() ==> timeline_analysis_found(
                *self,
                instants@[k] as int,
                include_matches,
                #[trigger] v@[k],
            ),
    {
        let mut result: Vec<TimeGridInstantAnalysis> = Vec::new();
        let mut k: usize = 0;
        while k < instants.len()
            invariant
                timeline_wf(*self),
                forall|k: int| 0 <= k < instants@.len() ==> (include_matches && (forall|j: int| 0 <= j <= k ==> in_timeline(
                    *self,
                    #[trigger] instants@[j] as int,
                )) ==> radius_fits(#[trigger] instants@[k] as int, None)),
                k <= instants@.len(),
                result@.len() == k,
                forall|j: int| 0 <= j < k ==> in_timeline(*self, #[trigger] instants@[j] as int),
                forall|j: int| 0 <= j < k ==> timeline_analysis_found(*self, instants@[j] as int, include_matches, #[trigger] result@[j]),
            decreases instants@.len() - k,
        {
            let a = match self.instant_analysis(instants[k], include_matches) {
                Ok(a) => a,
                Err(e) => {
                    return Err(e);
                },
            };
            result.push(a);
            k = k + 1;
        }
        Ok(result)
    }

    /// A copy of the timeline.
    pub fn duplicate(&self) -> (r: TimeGridTimeline)
        requires
            timeline_wf(*self),
        ensures
            timeline_wf(r),
            same_calendar(r.source, self.source),
            r.window == self.window,
            r.states@ == self.states@,
    {
        let source = self.source.duplicate();
        proof {
            lemma_same_calendar(source, self.source);
        }
        let r = TimeGridTimeline { source, window: self.window, states: crate::calendar::copy_vec(&self.states) };
        proof {
            lemma_same_state_value(r.source, self.source, self.window.start as int);
            assert forall|i: int, t: int| 0 <= i < r.states@.len() && #[trigger] r.states@[i].window.has(t) implies r.states@[i].capacity
                == query_value(r.source, r.window.start as int, t) by {
                assert(self.states@[i].capacity == query_value(self.source, self.window.start as int, t));
            }
            if core_range(self.window.start as int, self.window.end as int) {
                assert forall|i: int, t: int| 0 <= i < r.states@.len() && #[trigger] r.states@[i].window.has(t) implies r.states@[i].capacity
                    == capacity_at(r.source, t) by {
                    assert(self.states@[i].capacity == capacity_at(self.source, t));
                }
            }
            if !composite(self.source) {
                assert forall|i: int, t: int| 0 <= i < r.states@.len() && #[trigger] r.states@[i].window.has(t) implies r.states@[i].capacity
                    == win_capacity(r.source, t) by {
                    assert(self.states@[i].capacity == win_capacity(self.source, t));
                }
            }
        }
        r
    }
}

/// Several compiled timelines, queried together.
#[derive(Debug)]
pub struct TimeGridTimelineBatch {
    pub timelines: Vec<TimeGridTimeline>,
}

/// Every timeline of the batch is well formed.
pub open spec fn batch_wf(b: TimeGridTimelineBatch) -> bool {
    forall|i: int| 0 <= i < b.timelines@.len() ==> timeline_wf(#[trigger] b.timelines@[i])
}

impl TimeGridTimelineBatch {
    /// A batch of the given timelines, in order.
    pub fn new(timelines: Vec<TimeGridTimeline>) -> (r: TimeGridTimelineBatch)
        ensures
            r.timelines@ == timelines@,
    {
        TimeGridTimelineBatch { timelines }
    }

    /// A batch of the given timelines, in order.
    pub fn Create(timelines: Vec<TimeGridTimeline>) -> (r: TimeGridTimelineBatch)
        ensures
            r.timelines@ == timelines@,
    {
        Self::new(timelines)
    }

    /// The number of timelines.
    pub fn Count(&self) -> (n: usize)
        ensures
            n == self.timelines@.len(),
    {
        self.timelines.len()
    }

    /// The capacity of each timeline at `instant`; fails when one does not cover it.
    pub fn GetCapacitiesAt(&self, instant: i64) -> (r: Result<Vec<i32>, TimeGridError>)
        requires
            batch_wf(*self),
        ensures
            (forall|i: int| 0 <= i < self.timelines@.len() ==> in_timeline(#[trigger] self.timelines@[i], instant as int)) <==> r is Ok,
            r is Err ==> r == Err::<Vec<i32>, TimeGridError>(TimeGridError::OutsideTimeline),
            r matches Ok(cs) ==> cs@.len() == self.timelines@.len() && forall|i: int| 0 <= i < cs@.len() ==> #[trigger] cs@[i]
                == timeline_value(self.timelines@[i], instant as int),
    {
        let mut result: Vec<i32> = Vec::new();
        let mut i: usize = 0;
        while i < self.timelines.len()
            invariant
                batch_wf(*self),
                i <= self.timelines@.len(),
                result@.len() == i,
                forall|j: int| 0 <= j < i ==> in_timeline(#[trigger] self.timelines@[j], instant as int),
                forall|j: int| 0 <= j < i ==> #[trigger] result@[j] == timeline_value(self.timelines@[j], instant as int),
            decreases self.timelines@.len() - i,
        {
            proof {
                assert(timeline_wf(self.timelines@[i as int]));
            }
            let c = match self.timelines[i].GetCapacityAt(instant) {
                Ok(c) => c,
                Err(e) => {
                    return Err(e);
                },
            };
            result.push(c);
            i = i + 1;
        }
        Ok(result)
    }

    /// The analysis of `instant` against each timeline; fails when one does not cover it.
    pub fn Analyze(&self, instant: i64, include_matches: bool) -> (r: Result<Vec<TimeGridInstantAnalysis>, TimeGridError>)
        requires
            batch_wf(*self),
            include_matches && self.timelines@.len() > 0 && in_timeline(self.timelines@[0], instant as int) ==> radius_fits(
                instant as int,
                None,
            ),
        ensures
            (forall|i: int| 0 <= i < self.timelines@.len() ==> in_timeline(#[trigger] self.timelines@[i], instant as int)) <==> r is Ok,
            r is Err ==> r == Err::<Vec<TimeGridInstantAnalysis>, TimeGridError>(TimeGridError::OutsideTimeline),
            r matches Ok(v) ==> v@.len() == self.timelines@.len() && forall|i: int| 0 <= i < v@.len() ==> timeline_analysis_found(
                self.timelines@[i],
                instant as int,
                include_matches,
                #[trigger] v@[i],
            ),
    {
        let mut result: Vec<TimeGridInstantAnalysis> = Vec::new();
        let mut i: usize = 0;
        while i < self.timelines.len()
            invariant
                batch_wf(*self),
                include_matches && self.timelines@.len() > 0 && in_timeline(self.timelines@[0], instant as int) ==> radius_fits(
                    instant as int,
                    None,
                ),
                i <= self.timelines@.len(),
                result@.len() == i,
                forall|j: int| 0 <= j < i ==> in_timeline(#[trigger] self.timelines@[j], instant as int),
                forall|j: int| 0 <= j < i ==> timeline_analysis_found(self.timelines@[j], instant as int, include_matches, #[trigger] result@[j]),
            decreases self.timelines@.len() - i,
        {
            proof {
                assert(timeline_wf(self.timelines@[i as int]));
            }
            let a = match self.timelines[i].instant_analysis(instant, include_matches) {
                Ok(a) => a,
                Err(e) => {
                    return Err(e);
                },
            };
            result.push(a);
            i = i + 1;
        }
        Ok(result)
    }
}

} // verus!
