//! Queries bound to a calendar: at one instant, or over one range.
use vstd::prelude::*;
use crate::error::TimeGridError;
use crate::time::{Window, valid_instant, valid_span, duration_to_ticks};
use crate::rules::WindowMatch;
use crate::calendar::{Calendar, wf, capacity_at, validate_positive_capacity};
use crate::states::{StateWindow, states_of, windows_at_level, windows_unavailable, win_capacity, query_value};
use crate::windows::{covers, covers_at};
use crate::measure::{count_where, lemma_count_bounds};
use crate::search::{
    WorkingTimeTrace, work_added, work_traced, next_open_found, slot_found, working_measured,
    work_search_fits, slot_search_fits, radius_of, radius_fits, exact_range, exact_open, work_pred,
    lemma_work_pred_exact,
};
use crate::around::{
    next_transition_found, previous_transition_found, nearest_transition_found, current_window_found,
    windows_found,
};
use crate::analysis::{TimeGridInstantAnalysis, TimeGridTimelineAnalysis, analysis_wf};

verus! {

/// `b` tells whether the capacity windows of `[start, end)` give capacity at
/// least `m` throughout it: by `capacity_at` away from the edges of time, by the
/// expanded windows for a calendar without components.
pub open spec fn range_has(c: Calendar, start: int, end: int, m: int, b: bool) -> bool {
    &&& (b <==> forall|t: int| start <= t < end ==> #[trigger] query_value(c, start, t) >= m)
    &&& crate::time::core_range(start, end) ==> (b <==> forall|t: int| start <= t < end ==> #[trigger] capacity_at(c, t) >= m)
    &&& !crate::calendar::composite(c) ==> (b <==> forall|t: int| start <= t < end ==> #[trigger] win_capacity(c, t) >= m)
}

/// What converting the working time of `[start, end)` to ticks gives.
pub open spec fn working_ticks(c: Calendar, start: i64, end: i64, r: Result<i64, TimeGridError>) -> bool {
    &&& end < start ==> r == Err::<i64, TimeGridError>(TimeGridError::EndBeforeStart)
    &&& start <= end ==> (r is Err ==> r == Err::<i64, TimeGridError>(TimeGridError::TickOverflow))
    &&& start <= end && exact_range(c, start as int, end as int) ==> (r is Ok <==> count_where(
        start as int,
        end as int,
        work_pred(c, start as int, end as int),
    ) * 10 <= i64::MAX)
    &&& r matches Ok(v) ==> forall|p: spec_fn(int) -> bool| exact_open(c, start as int, end as int, p) ==> v
        == count_where(start as int, end as int, p) * 10
    &&& start <= end ==> (r is Ok <==> count_where(start as int, end as int, |t: int| query_value(c, start as int, t) >= 1)
        * 10 <= i64::MAX)
    &&& r matches Ok(v) ==> v == count_where(start as int, end as int, |t: int| query_value(c, start as int, t) >= 1) * 10
}

/// The working time of `[start, end)` in ticks of a tenth of a microsecond.
pub fn ticks_between(c: &Calendar, start: i64, end: i64) -> (r: Result<i64, TimeGridError>)
    requires
        wf(*c),
        valid_instant(start as int),
        valid_instant(end as int),
    ensures
        working_ticks(*c, start, end, r),
{
    let d = c.get_working_duration(start, end)?;
    proof {
        lemma_count_bounds(start as int, end as int, |t: int| query_value(*c, start as int, t) >= 1);
        if exact_range(*c, start as int, end as int) {
            lemma_work_pred_exact(*c, start as int, end as int);
            lemma_count_bounds(start as int, end as int, work_pred(*c, start as int, end as int));
        }
    }
    duration_to_ticks(d)
}

/// Whether the calendar has capacity at least `minimum` throughout `[start, end)`.
pub fn covers_range(c: &Calendar, start: i64, end: i64, minimum: i32) -> (r: Result<bool, TimeGridError>)
    requires
        wf(*c),
        valid_instant(start as int),
        valid_instant(end as int),
        minimum > 0,
    ensures
        end < start ==> r == Err::<bool, TimeGridError>(TimeGridError::EndBeforeStart),
        start <= end ==> (r matches Ok(b) && range_has(*c, start as int, end as int, minimum as int, b)),
{
    let query = Window::new(start, end)?;
    if query.is_empty() {
        return Ok(true);
    }
    let windows = c.get_capacity_windows(start, end, minimum)?;
    proof {
        assert(crate::windows::starts_sorted(windows@)) by {
            assert forall|i: int, j: int| 0 <= i <= j < windows@.len()
                implies (#[trigger] windows@[i]).start <= (#[trigger] windows@[j]).start by {
                if i < j {
                    assert(windows@[i].end < windows@[j].start);
                }
            }
        }
    }
    let b = covers(query, &windows);
    proof {
        assert(b <==> forall|t: int| start <= t < end ==> #[trigger] query_value(*c, start as int, t) >= minimum) by {
            if b {
                assert forall|t: int| start <= t < end implies #[trigger] query_value(*c, start as int, t) >= minimum by {
                    assert(query.has(t));
                    assert(covers_at(windows@, t));
                }
            } else {
                let t = choose|t: int| query.has(t) && !#[trigger] covers_at(windows@, t);
                assert(!(query_value(*c, start as int, t) >= minimum));
            }
        }
        if crate::time::core_range(start as int, end as int) {
            assert(b <==> forall|t: int| start <= t < end ==> #[trigger] capacity_at(*c, t) >= minimum) by {
                if b {
                    assert forall|t: int| start <= t < end implies #[trigger] capacity_at(*c, t) >= minimum by {
                        assert(query.has(t));
                        assert(covers_at(windows@, t));
                    }
                } else {
                    let t = choose|t: int| query.has(t) && !#[trigger] covers_at(windows@, t);
                    assert(!(capacity_at(*c, t) >= minimum));
                }
            }
        }
        if !crate::calendar::composite(*c) {
            assert(b <==> forall|t: int| start <= t < end ==> #[trigger] win_capacity(*c, t) >= minimum) by {
                if b {
                    assert forall|t: int| start <= t < end implies #[trigger] win_capacity(*c, t) >= minimum by {
                        assert(query.has(t));
                        assert(covers_at(windows@, t));
                    }
                } else {
                    let t = choose|t: int| query.has(t) && !#[trigger] covers_at(windows@, t);
                    assert(!(win_capacity(*c, t) >= minimum));
                }
            }
        }
    }
    Ok(b)
}

/// The queries of a calendar at one instant.
#[derive(Debug)]
pub struct TimeGridPointQuery {
    pub calendar: Calendar,
    pub start: i64,
}

/// The query's calendar is well formed and its instant representable.
pub open spec fn point_wf(q: TimeGridPointQuery) -> bool {
    wf(q.calendar) && valid_instant(q.start as int)
}

impl TimeGridPointQuery {
    /// The instant allows work.
    pub fn CanWork(&self) -> (b: bool)
        requires
            point_wf(*self),
        ensures
            b == (capacity_at(self.calendar, self.start as int) > 0),
    {
        self.calendar.get_capacity_at(self.start) > 0
    }

    /// The capacity at the instant is at least `minimum_capacity`, which must be positive.
    pub fn HasCapacity(&self, minimum_capacity: i32) -> (r: Result<bool, TimeGridError>)
        requires
            point_wf(*self),
        ensures
            minimum_capacity <= 0 ==> r == Err::<bool, TimeGridError>(TimeGridError::RequiredCapacityNotPositive),
            minimum_capacity > 0 ==> r == Ok::<bool, TimeGridError>(
                capacity_at(self.calendar, self.start as int) >= minimum_capacity,
            ),
    {
        validate_positive_capacity(minimum_capacity)?;
        Ok(self.calendar.get_capacity_at(self.start) >= minimum_capacity)
    }

    /// The capacity at the instant.
    pub fn GetCapacity(&self) -> (c: i32)
        requires
            point_wf(*self),
        ensures
            c == capacity_at(self.calendar, self.start as int),
    {
        self.calendar.get_capacity_at(self.start)
    }

    /// The analysis of the instant within the search radius.
    pub fn Analyze(&self, search_radius: Option<i128>) -> (r: Result<TimeGridInstantAnalysis, TimeGridError>)
        requires
            point_wf(*self),
            radius_fits(self.start as int, search_radius),
        ensures
            radius_of(search_radius) <= 0 ==> r == Err::<TimeGridInstantAnalysis, TimeGridError>(
                TimeGridError::SearchRadiusNotPositive,
            ),
            radius_of(search_radius) > 0 ==> r is Ok,
            r matches Ok(a) ==> {
                &&& a.instant == self.start
                &&& a.capacity == capacity_at(self.calendar, self.start as int)
                &&& current_window_found(self.calendar, self.start as int, search_radius, a.capacity > 0, a.current_window)
                &&& previous_transition_found(self.calendar, self.start as int, search_radius, a.previous_transition)
                &&& next_transition_found(self.calendar, self.start as int, search_radius, a.next_transition)
                &&& windows_found(self.calendar, self.start as int, search_radius, a.matches@)
            },
    {
        self.calendar.instant_analysis(self.start, search_radius)
    }

    /// The windows holding the instant.
    pub fn GetWindows(&self, search_radius: Option<i128>) -> (r: Result<Vec<WindowMatch>, TimeGridError>)
        requires
            point_wf(*self),
            radius_fits(self.start as int, search_radius),
        ensures
            radius_of(search_radius) <= 0 ==> r == Err::<Vec<WindowMatch>, TimeGridError>(TimeGridError::SearchRadiusNotPositive),
            radius_of(search_radius) > 0 ==> r is Ok,
            r matches Ok(ms) ==> windows_found(self.calendar, self.start as int, search_radius, ms@),
    {
        self.calendar.get_windows_at(self.start, search_radius)
    }

    /// The open state window holding the instant.
    pub fn GetCurrentOpenWindow(&self, search_radius: Option<i128>) -> (r: Result<Option<Window>, TimeGridError>)
        requires
            point_wf(*self),
            radius_fits(self.start as int, search_radius),
        ensures
            radius_of(search_radius) <= 0 ==> r == Err::<Option<Window>, TimeGridError>(TimeGridError::SearchRadiusNotPositive),
            radius_of(search_radius) > 0 ==> r is Ok,
            r matches Ok(w) ==> current_window_found(self.calendar, self.start as int, search_radius, true, w),
    {
        self.calendar.get_current_open_window(self.start, search_radius)
    }

    /// The unavailable state window holding the instant.
    pub fn GetCurrentUnavailableWindow(&self, search_radius: Option<i128>) -> (r: Result<Option<Window>, TimeGridError>)
        requires
            point_wf(*self),
            radius_fits(self.start as int, search_radius),
        ensures
            radius_of(search_radius) <= 0 ==> r == Err::<Option<Window>, TimeGridError>(TimeGridError::SearchRadiusNotPositive),
            radius_of(search_radius) > 0 ==> r is Ok,
            r matches Ok(w) ==> current_window_found(self.calendar, self.start as int, search_radius, false, w),
    {
        self.calendar.get_current_unavailable_window(self.start, search_radius)
    }

    /// The first change of capacity after the instant.
    pub fn GetNextTransitionTime(&self, search_radius: Option<i128>) -> (r: Result<Option<i64>, TimeGridError>)
        requires
            point_wf(*self),
            radius_fits(self.start as int, search_radius),
        ensures
            radius_of(search_radius) <= 0 ==> r == Err::<Option<i64>, TimeGridError>(TimeGridError::SearchRadiusNotPositive),
            radius_of(search_radius) > 0 ==> r is Ok,
            r matches Ok(x) ==> next_transition_found(self.calendar, self.start as int, search_radius, x),
    {
        self.calendar.get_next_transition_time(self.start, search_radius)
    }

    /// The last change of capacity before the instant.
    pub fn GetPreviousTransitionTime(&self, search_radius: Option<i128>) -> (r: Result<Option<i64>, TimeGridError>)
        requires
            point_wf(*self),
            radius_fits(self.start as int, search_radius),
        ensures
            radius_of(search_radius) <= 0 ==> r == Err::<Option<i64>, TimeGridError>(TimeGridError::SearchRadiusNotPositive),
            radius_of(search_radius) > 0 ==> r is Ok,
            r matches Ok(x) ==> previous_transition_found(self.calendar, self.start as int, search_radius, x),
    {
        self.calendar.get_previous_transition_time(self.start, search_radius)
    }

    /// The change of capacity nearest to the instant.
    pub fn GetNearestTransitionTime(&self, search_radius: Option<i128>) -> (r: Result<Option<i64>, TimeGridError>)
        requires
            point_wf(*self),
            radius_fits(self.start as int, search_radius),
        ensures
            radius_of(search_radius) <= 0 ==> r == Err::<Option<i64>, TimeGridError>(TimeGridError::SearchRadiusNotPositive),
            radius_of(search_radius) > 0 ==> r is Ok,
            r matches Ok(x) ==> nearest_transition_found(self.calendar, self.start as int, search_radius, x),
    {
        self.calendar.get_nearest_transition_time(self.start, search_radius)
    }

    /// The first open instant from the query's instant on.
    pub fn GetNextOpenTime(&self, search_until: Option<i64>) -> (r: Result<Option<i64>, TimeGridError>)
        requires
            point_wf(*self),
            work_search_fits(self.start as int, 1, search_until),
        ensures
            next_open_found(self.calendar, self.start, search_until, r),
    {
        self.calendar.get_next_open_time(self.start, search_until)
    }

    /// The instant at which `duration` of working time has elapsed from the query's instant.
    pub fn AddWorkDuration(&self, duration: i128, search_until: Option<i64>) -> (r: Result<i64, TimeGridError>)
        requires
            point_wf(*self),
            valid_span(duration as int),
            work_search_fits(self.start as int, duration as int, search_until),
        ensures
            work_added(self.calendar, self.start, duration, search_until, r),
    {
        self.calendar.add_work_duration(self.start, duration, search_until)
    }

    /// Like `AddWorkDuration`, with the working windows consumed.
    pub fn TraceWorkDuration(&self, duration: i128, search_until: Option<i64>) -> (r: Result<WorkingTimeTrace, TimeGridError>)
        requires
            point_wf(*self),
            valid_span(duration as int),
            work_search_fits(self.start as int, duration as int, search_until),
        ensures
            work_traced(self.calendar, self.start, duration, search_until, r),
    {
        self.calendar.trace_work_duration(self.start, duration, search_until)
    }
}

/// The queries of a calendar over one range.
#[derive(Debug)]
pub struct TimeGridRangeQuery {
    pub calendar: Calendar,
    pub start: i64,
    pub end: i64,
}

/// The query's calendar is well formed and its ends representable.
pub open spec fn range_wf(q: TimeGridRangeQuery) -> bool {
    wf(q.calendar) && valid_instant(q.start as int) && valid_instant(q.end as int)
}

impl TimeGridRangeQuery {
    /// The open windows of the range.
    pub fn GetOpenWindows(&self) -> (r: Result<Vec<Window>, TimeGridError>)
        requires
            range_wf(*self),
        ensures
            self.end < self.start ==> r == Err::<Vec<Window>, TimeGridError>(TimeGridError::EndBeforeStart),
            self.start <= self.end ==> r is Ok,
            r matches Ok(ws) ==> windows_at_level(self.calendar, self.start, self.end, 1, ws@),
    {
        self.calendar.get_open_windows(self.start, self.end)
    }

    /// The unavailable windows of the range.
    pub fn GetUnavailableWindows(&self) -> (r: Result<Vec<Window>, TimeGridError>)
        requires
            range_wf(*self),
        ensures
            self.end < self.start ==> r == Err::<Vec<Window>, TimeGridError>(TimeGridError::EndBeforeStart),
            self.start <= self.end ==> r is Ok,
            r matches Ok(ws) ==> windows_unavailable(self.calendar, self.start, self.end, ws@),
    {
        self.calendar.get_unavailable_windows(self.start, self.end)
    }

    /// The state windows of the range.
    pub fn GetStateWindows(&self) -> (r: Result<Vec<StateWindow>, TimeGridError>)
        requires
            range_wf(*self),
        ensures
            self.end < self.start ==> r == Err::<Vec<StateWindow>, TimeGridError>(TimeGridError::EndBeforeStart),
            self.start <= self.end ==> r is Ok,
            r matches Ok(s) ==> states_of(self.calendar, self.start, self.end, s@),
    {
        self.calendar.get_state_windows(self.start, self.end)
    }

    /// The analysis of the range: its state windows.
    pub fn Analyze(&self) -> (r: Result<TimeGridTimelineAnalysis, TimeGridError>)
        requires
            range_wf(*self),
        ensures
            self.end < self.start ==> r == Err::<TimeGridTimelineAnalysis, TimeGridError>(TimeGridError::EndBeforeStart),
            self.start <= self.end ==> r is Ok,
            r matches Ok(a) ==> a.window == (Window { start: self.start, end: self.end }) && analysis_wf(a)
                && states_of(self.calendar, self.start, self.end, a.segments@),
    {
        self.calendar.range_analysis(self.start, self.end)
    }

    /// The working time of the range, in microseconds.
    pub fn GetWorkingDuration(&self) -> (r: Result<i128, TimeGridError>)
        requires
            range_wf(*self),
        ensures
            working_measured(self.calendar, self.start, self.end, r),
    {
        self.calendar.get_working_duration(self.start, self.end)
    }

    /// The working time of the range, in ticks of a tenth of a microsecond.
    pub fn GetWorkingTicks(&self) -> (r: Result<i64, TimeGridError>)
        requires
            range_wf(*self),
        ensures
            working_ticks(self.calendar, self.start, self.end, r),
    {
        ticks_between(&self.calendar, self.start, self.end)
    }

    /// The windows of the range with capacity at least `minimum_capacity`, which must be positive.
    pub fn GetCapacityWindows(&self, minimum_capacity: i32) -> (r: Result<Vec<Window>, TimeGridError>)
        requires
            range_wf(*self),
        ensures
            minimum_capacity <= 0 ==> r == Err::<Vec<Window>, TimeGridError>(TimeGridError::RequiredCapacityNotPositive),
            minimum_capacity > 0 && self.end < self.start ==> r == Err::<Vec<Window>, TimeGridError>(TimeGridError::EndBeforeStart),
            r is Ok <==> minimum_capacity > 0 && self.start <= self.end,
            r matches Ok(ws) ==> windows_at_level(self.calendar, self.start, self.end, minimum_capacity as int, ws@),
    {
        self.calendar.get_capacity_windows(self.start, self.end, minimum_capacity)
    }

    /// The whole range allows work.
    pub fn CanWork(&self) -> (r: Result<bool, TimeGridError>)
        requires
            range_wf(*self),
        ensures
            self.end < self.start ==> r == Err::<bool, TimeGridError>(TimeGridError::EndBeforeStart),
            self.start <= self.end ==> (r matches Ok(b) && range_has(self.calendar, self.start as int, self.end as int, 1, b)),
    {
        covers_range(&self.calendar, self.start, self.end, 1)
    }

    /// The capacity is at least `minimum_capacity`, which must be positive,
    /// throughout the range.
    pub fn HasCapacity(&self, minimum_capacity: i32) -> (r: Result<bool, TimeGridError>)
        requires
            range_wf(*self),
        ensures
            minimum_capacity <= 0 ==> r == Err::<bool, TimeGridError>(TimeGridError::RequiredCapacityNotPositive),
            minimum_capacity > 0 && self.end < self.start ==> r == Err::<bool, TimeGridError>(TimeGridError::EndBeforeStart),
            minimum_capacity > 0 && self.start <= self.end ==> (r matches Ok(b) && range_has(
                self.calendar,
                self.start as int,
                self.end as int,
                minimum_capacity as int,
                b,
            )),
    {
        validate_positive_capacity(minimum_capacity)?;
        covers_range(&self.calendar, self.start, self.end, minimum_capacity)
    }

    /// The first slot of `duration` inside the range whose capacity is at
    /// least `minimum_capacity` throughout.
    pub fn FindFirstSlot(&self, duration: i128, minimum_capacity: i32) -> (r: Result<Option<Window>, TimeGridError>)
        requires
            range_wf(*self),
            valid_span(duration as int),
            slot_search_fits(self.start as int, duration as int, minimum_capacity as int, Some(self.end)),
        ensures
            slot_found(self.calendar, self.start, duration, minimum_capacity, Some(self.end), r),
    {
        self.calendar.find_first_slot(self.start, duration, minimum_capacity, Some(self.end))
    }
}

} // verus!
