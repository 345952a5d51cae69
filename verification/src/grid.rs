//! The calendar as the library presents it: building, editing, combining,
//! compiling and querying, and the point and range queries bound to it.
use vstd::prelude::*;
use crate::error::TimeGridError;
use crate::time::{Window, valid_instant, valid_time, valid_date, valid_span, core_range, MAX_DATE, at_time};
use crate::rules::{WeeklyRule, WindowMatch, rule_error};
use crate::calendar::{
    Calendar, Entry, wf, composite, same_calendar, capacity_at, entries_with, entry_error, position_of,
    entry_position, validate_entry_id, weekday_rules, lemma_same_calendar,
};
use crate::states::{StateWindow, states_of, windows_at_level, windows_unavailable};

use crate::search::{
    WorkingTimeTrace, work_added, work_traced, next_open_found, slot_found, working_measured,
    work_search_fits, slot_search_fits, radius_of, radius_fits,
};
use crate::around::{
    next_transition_found, previous_transition_found, nearest_transition_found, current_window_found,
    windows_found,
};
use crate::analysis::{TimeGridInstantAnalysis};
use crate::timeline::{TimeGridTimeline, timeline_wf, timeline_value};
use crate::definition::{
    Definition, TimeGridDefinition, describes, defined_calendar, definition_error, definition_in_range,
};
use crate::api::{TimeWindow, TimeGridWeeklyRule, TimeGridCapacityWindow, TimeGridEntry};
use crate::text::blank;
use crate::queries::{TimeGridPointQuery, TimeGridRangeQuery};
use crate::calendar::CapacityWindow;

verus! {

broadcast use vstd::seq_lib::group_seq_properties;

/// A composite calendar's own part: default capacity 1 and no rules, windows,
/// overrides or entries of its own; its components decide everything.
pub open spec fn nothing_of_its_own(c: Calendar) -> bool {
    &&& c.default_capacity == 1
    &&& c.open_rules@.len() == 0
    &&& c.break_rules@.len() == 0
    &&& c.open_windows@.len() == 0
    &&& c.closed_windows@.len() == 0
    &&& c.capacity_overrides@.len() == 0
    &&& c.entries@.len() == 0
}

/// A calendar: weekly rules, dated windows, capacity overrides and named
/// entries, or the intersection of other calendars.
#[derive(Debug)]
pub struct TimeGridCalendar {
    pub inner: Calendar,
}

/// What a working check looks at: one instant, or every instant of a window.
pub enum Target {
    Instant(i64),
    Window(TimeWindow),
}

/// The instants a target names are representable.
pub open spec fn valid_target(target: Target) -> bool {
    match target {
        Target::Instant(t) => valid_instant(t as int),
        Target::Window(w) => valid_instant(w.inner.start as int) && valid_instant(w.inner.end as int),
    }
}

/// The calendar has capacity at least `m` at every instant the target names,
/// as far as the capacity windows compute it.
pub open spec fn target_has(c: Calendar, target: Target, m: int, b: bool) -> bool {
    match target {
        Target::Instant(t) => b == (capacity_at(c, t as int) >= m),
        Target::Window(w) => {
            &&& (b <==> forall|t: int| w.inner.start <= t < w.inner.end ==> #[trigger] crate::states::query_value(
                c,
                w.inner.start as int,
                t,
            ) >= m)
            &&& w.inner.end <= w.inner.start ==> b
            &&& core_range(w.inner.start as int, w.inner.end as int) ==> (b <==> forall|t: int|
                w.inner.start <= t < w.inner.end ==> #[trigger] capacity_at(c, t) >= m)
            &&& !composite(c) ==> (b <==> forall|t: int| w.inner.start <= t < w.inner.end ==> #[trigger] crate::states::win_capacity(c, t) >= m)
        },
    }
}

/// The calendar did not change but for the field an edit names.
pub open spec fn only_entries_changed(a: Calendar, b: Calendar) -> bool {
    b == (Calendar { entries: b.entries, ..a })
}

impl TimeGridCalendar {
    /// An empty calendar with the default capacity; it is never open.
    pub fn new() -> (r: TimeGridCalendar)
        ensures
            wf(r.inner),
            !composite(r.inner),
            r.inner.default_capacity == 1,
            r.inner.open_rules@.len() == 0 && r.inner.break_rules@.len() == 0,
            r.inner.open_windows@.len() == 0 && r.inner.closed_windows@.len() == 0,
            r.inner.capacity_overrides@.len() == 0 && r.inner.entries@.len() == 0,
    {
        TimeGridCalendar { inner: Calendar::new_default() }
    }

    /// An empty calendar with the default capacity; it is never open.
    pub fn Create() -> (r: TimeGridCalendar)
        ensures
            wf(r.inner),
            !composite(r.inner),
            r.inner.default_capacity == 1,
            r.inner.open_rules@.len() == 0 && r.inner.break_rules@.len() == 0,
            r.inner.open_windows@.len() == 0 && r.inner.closed_windows@.len() == 0,
            r.inner.capacity_overrides@.len() == 0 && r.inner.entries@.len() == 0,
    {
        Self::new()
    }

    /// A copy of the calendar.
    pub fn duplicate(&self) -> (r: TimeGridCalendar)
        ensures
            same_calendar(r.inner, self.inner),
    {
        TimeGridCalendar { inner: self.inner.duplicate() }
    }

    /// The capacity used where no override applies.
    pub fn DefaultCapacity(&self) -> (r: i32)
        ensures
            r == self.inner.default_capacity,
    {
        self.inner.default_capacity
    }

    /// The calendar is the intersection of other calendars.
    pub fn IsComposite(&self) -> (b: bool)
        ensures
            b == composite(self.inner),
    {
        self.inner.is_composite()
    }

    /// Copies of the calendars this one intersects.
    pub fn Components(&self) -> (r: Vec<TimeGridCalendar>)
        ensures
            r@.len() == self.inner.components@.len(),
            forall|i: int| 0 <= i < r@.len() ==> same_calendar(#[trigger] r@[i].inner, self.inner.components@[i]),
    {
        let mut result: Vec<TimeGridCalendar> = Vec::new();
        let mut i: usize = 0;
        while i < self.inner.components.len()
            invariant
                i <= self.inner.components@.len(),
                result@.len() == i,
                forall|j: int| 0 <= j < i ==> same_calendar(#[trigger] result@[j].inner, self.inner.components@[j]),
            decreases self.inner.components@.len() - i,
        {
            result.push(TimeGridCalendar { inner: self.inner.components[i].duplicate() });
            i = i + 1;
        }
        result
    }

    /// The weekly open rules.
    pub fn OpenRules(&self) -> (r: Vec<TimeGridWeeklyRule>)
        ensures
            r@.len() == self.inner.open_rules@.len(),
            forall|i: int| 0 <= i < r@.len() ==> (#[trigger] r@[i]).inner == self.inner.open_rules@[i],
    {
        rules_out(&self.inner.open_rules)
    }

    /// The weekly break rules.
    pub fn BreakRules(&self) -> (r: Vec<TimeGridWeeklyRule>)
        ensures
            r@.len() == self.inner.break_rules@.len(),
            forall|i: int| 0 <= i < r@.len() ==> (#[trigger] r@[i]).inner == self.inner.break_rules@[i],
    {
        rules_out(&self.inner.break_rules)
    }

    /// The dated open windows.
    pub fn OpenWindows(&self) -> (r: Vec<TimeWindow>)
        ensures
            r@.len() == self.inner.open_windows@.len(),
            forall|i: int| 0 <= i < r@.len() ==> (#[trigger] r@[i]).inner == self.inner.open_windows@[i],
    {
        windows_out(&self.inner.open_windows)
    }

    /// The dated closed windows.
    pub fn ClosedWindows(&self) -> (r: Vec<TimeWindow>)
        ensures
            r@.len() == self.inner.closed_windows@.len(),
            forall|i: int| 0 <= i < r@.len() ==> (#[trigger] r@[i]).inner == self.inner.closed_windows@[i],
    {
        windows_out(&self.inner.closed_windows)
    }

    /// The capacity overrides.
    pub fn CapacityOverrides(&self) -> (r: Vec<TimeGridCapacityWindow>)
        ensures
            r@.len() == self.inner.capacity_overrides@.len(),
            forall|i: int| 0 <= i < r@.len() ==> (#[trigger] r@[i]).inner == self.inner.capacity_overrides@[i],
    {
        let mut result: Vec<TimeGridCapacityWindow> = Vec::new();
        let mut i: usize = 0;
        while i < self.inner.capacity_overrides.len()
            invariant
                i <= self.inner.capacity_overrides@.len(),
                result@.len() == i,
                forall|j: int| 0 <= j < i ==> (#[trigger] result@[j]).inner == self.inner.capacity_overrides@[j],
            decreases self.inner.capacity_overrides@.len() - i,
        {
            result.push(TimeGridCapacityWindow { inner: self.inner.capacity_overrides[i] });
            i = i + 1;
        }
        result
    }

    /// The named entries.
    pub fn Entries(&self) -> (r: Vec<TimeGridEntry>)
        ensures
            r@.len() == self.inner.entries@.len(),
            forall|i: int| 0 <= i < r@.len() ==> (#[trigger] r@[i]).inner == self.inner.entries@[i],
    {
        let mut result: Vec<TimeGridEntry> = Vec::new();
        let mut i: usize = 0;
        while i < self.inner.entries.len()
            invariant
                i <= self.inner.entries@.len(),
                result@.len() == i,
                forall|j: int| 0 <= j < i ==> (#[trigger] result@[j]).inner == self.inner.entries@[j],
            decreases self.inner.entries@.len() - i,
        {
            result.push(TimeGridEntry { inner: self.inner.entries[i].duplicate() });
            i = i + 1;
        }
        result
    }
}

impl TimeGridCalendar {
    /// A calendar open Monday through Friday from `start` to `end`.
    pub fn Weekdays(start: i64, end: i64) -> (r: Result<TimeGridCalendar, TimeGridError>)
        requires
            valid_time(start as int),
            valid_time(end as int),
        ensures
            start == end ==> r == Err::<TimeGridCalendar, TimeGridError>(TimeGridError::SameStartAndEnd),
            start != end ==> r is Ok,
            r matches Ok(c) ==> wf(c.inner) && !composite(c.inner) && c.inner.default_capacity == 1
                && c.inner.open_rules@ == weekday_rules(start, end) && c.inner.break_rules@.len() == 0
                && c.inner.open_windows@.len() == 0 && c.inner.closed_windows@.len() == 0
                && c.inner.capacity_overrides@.len() == 0 && c.inner.entries@.len() == 0,
    {
        let mut calendar = Calendar::new_default();
        calendar.add_weekday_open_rule(start, end)?;
        proof {
            assert(calendar.open_rules@ =~= weekday_rules(start, end));
        }
        Ok(TimeGridCalendar { inner: calendar })
    }

    /// A calendar open from `start` to `end`.
    pub fn Window(start: i64, end: i64) -> (r: Result<TimeGridCalendar, TimeGridError>)
        requires
            valid_instant(start as int),
            valid_instant(end as int),
        ensures
            end < start ==> r == Err::<TimeGridCalendar, TimeGridError>(TimeGridError::EndBeforeStart),
            start <= end ==> r is Ok,
            r matches Ok(c) ==> wf(c.inner) && !composite(c.inner) && c.inner.default_capacity == 1
                && c.inner.open_rules@.len() == 0 && c.inner.break_rules@.len() == 0
                && c.inner.open_windows@ == seq![Window { start, end }] && c.inner.closed_windows@.len() == 0
                && c.inner.capacity_overrides@.len() == 0 && c.inner.entries@.len() == 0,
    {
        let mut calendar = Calendar::new_default();
        calendar.add_open_window(start, end)?;
        proof {
            assert(calendar.open_windows@ =~= seq![Window { start, end }]);
        }
        Ok(TimeGridCalendar { inner: calendar })
    }

    /// The intersection of the calendars: open where all are, with the
    /// smallest capacity, except that it reports 0 where every component
    /// reports `i32::MAX`; a single calendar is returned as it is.
    pub fn Intersect(calendars: Vec<TimeGridCalendar>) -> (r: Result<TimeGridCalendar, TimeGridError>)
        requires
            forall|i: int| 0 <= i < calendars@.len() ==> wf(#[trigger] calendars@[i].inner),
        ensures
            calendars@.len() == 0 ==> r == Err::<TimeGridCalendar, TimeGridError>(TimeGridError::NoCalendars),
            calendars@.len() > 0 ==> r is Ok,
            r matches Ok(c) ==> wf(c.inner),
            calendars@.len() == 1 ==> (r matches Ok(c) && c.inner == calendars@[0].inner),
            calendars@.len() > 1 ==> (r matches Ok(c) && c.inner.components@.len() == calendars@.len()
                && forall|i: int| 0 <= i < calendars@.len() ==> (#[trigger] c.inner.components@[i]) == calendars@[i].inner),
            calendars@.len() > 1 ==> (r matches Ok(c) && nothing_of_its_own(c.inner)),
    {
        if calendars.len() == 0 {
            return Err(TimeGridError::NoCalendars);
        }
        let ghost given = calendars@;
        let mut rest = calendars;
        if rest.len() == 1 {
            let only = rest.remove(0);
            return Ok(only);
        }
        let mut components: Vec<Calendar> = Vec::new();
        while rest.len() > 0
            invariant
                components@.len() + rest@.len() == given.len(),
                forall|i: int| 0 <= i < components@.len() ==> (#[trigger] components@[i]) == given[i].inner,
                forall|i: int| 0 <= i < rest@.len() ==> (#[trigger] rest@[i]) == given[components@.len() + i],
                forall|i: int| 0 <= i < given.len() ==> wf(#[trigger] given[i].inner),
            decreases rest@.len(),
        {
            let ghost before = rest@;
            let next = rest.remove(0);
            proof {
                assert(next == given[components@.len() as int]);
                assert forall|i: int| 0 <= i < rest@.len() implies (#[trigger] rest@[i]) == given[components@.len() + 1 + i] by {
                    assert(rest@[i] == before[i + 1]);
                }
            }
            components.push(next.inner);
        }
        let mut calendar = Calendar::new_default();
        calendar.components = components;
        Ok(TimeGridCalendar { inner: calendar })
    }

    /// The intersection of this calendar and `other`, with the same capacity
    /// rule as `Intersect`.
    pub fn And(&self, other: &TimeGridCalendar) -> (r: TimeGridCalendar)
        requires
            wf(self.inner),
            wf(other.inner),
        ensures
            wf(r.inner),
            r.inner.components@.len() == 2,
            same_calendar(r.inner.components@[0], self.inner),
            same_calendar(r.inner.components@[1], other.inner),
            nothing_of_its_own(r.inner),
    {
        let a = self.inner.duplicate();
        let b = other.inner.duplicate();
        proof {
            lemma_same_calendar(a, self.inner);
            lemma_same_calendar(b, other.inner);
        }
        let mut calendar = Calendar::new_default();
        calendar.components = vec![a, b];
        TimeGridCalendar { inner: calendar }
    }

    /// The queries of this calendar at `start`.
    pub fn At(&self, start: i64) -> (q: TimeGridPointQuery)
        ensures
            same_calendar(q.calendar, self.inner),
            q.start == start,
    {
        TimeGridPointQuery { calendar: self.inner.duplicate(), start }
    }

    /// The queries of this calendar over `[start, end)`.
    pub fn Between(&self, start: i64, end: i64) -> (q: TimeGridRangeQuery)
        ensures
            same_calendar(q.calendar, self.inner),
            q.start == start,
            q.end == end,
    {
        TimeGridRangeQuery { calendar: self.inner.duplicate(), start, end }
    }

    /// The timeline of this calendar over `[start, end)`, compiled for repeated queries.
    pub fn Compile(&self, start: i64, end: i64) -> (r: Result<TimeGridTimeline, TimeGridError>)
        requires
            wf(self.inner),
            valid_instant(start as int),
            valid_instant(end as int),
        ensures
            end < start ==> r == Err::<TimeGridTimeline, TimeGridError>(TimeGridError::EndBeforeStart),
            start <= end ==> r is Ok,
            r matches Ok(tl) ==> timeline_wf(tl) && tl.window == (Window { start, end }) && same_calendar(
                tl.source,
                self.inner,
            ),
            r matches Ok(tl) ==> (core_range(start as int, end as int) ==> forall|t: int|
                start <= t < end ==> #[trigger] timeline_value(tl, t) == capacity_at(self.inner, t)),
            r matches Ok(tl) ==> forall|t: int|
                start <= t < end ==> #[trigger] timeline_value(tl, t) == crate::states::query_value(self.inner, start as int, t),
    {
        TimeGridTimeline::compile(&self.inner, start, end)
    }

    /// The definition of the calendar; composite calendars have none.
    pub fn ToDefinition(&self) -> (r: Result<TimeGridDefinition, TimeGridError>)
        ensures
            composite(self.inner) ==> r == Err::<TimeGridDefinition, TimeGridError>(TimeGridError::CompositeNotSerializable),
            !composite(self.inner) ==> (r matches Ok(d) && describes(d.inner, self.inner)),
    {
        if self.inner.is_composite() {
            return Err(TimeGridError::CompositeNotSerializable);
        }
        Ok(TimeGridDefinition { inner: Definition::from_calendar(&self.inner) })
    }

    /// The calendar a definition describes.
    pub fn FromDefinition(definition: &TimeGridDefinition) -> (r: Result<TimeGridCalendar, TimeGridError>)
        requires
            definition_in_range(definition.inner),
        ensures
            r is Ok <==> definition_error(definition.inner) is None,
            r matches Err(e) ==> definition_error(definition.inner) == Some(e),
            r matches Ok(c) ==> wf(c.inner) && defined_calendar(c.inner, definition.inner),
    {
        definition.ToCalendar()
    }

    /// The analysis of `instant`: capacity, state window, transitions and matches.
    pub fn instant_analysis(&self, instant: i64, search_radius: Option<i128>) -> (r: Result<TimeGridInstantAnalysis, TimeGridError>)
        requires
            wf(self.inner),
            valid_instant(instant as int),
            radius_fits(instant as int, search_radius),
        ensures
            radius_of(search_radius) <= 0 ==> r == Err::<TimeGridInstantAnalysis, TimeGridError>(
                TimeGridError::SearchRadiusNotPositive,
            ),
            radius_of(search_radius) > 0 ==> r is Ok,
            r matches Ok(a) ==> {
                &&& a.instant == instant
                &&& a.capacity == capacity_at(self.inner, instant as int)
                &&& current_window_found(self.inner, instant as int, search_radius, a.capacity > 0, a.current_window)
                &&& previous_transition_found(self.inner, instant as int, search_radius, a.previous_transition)
                &&& next_transition_found(self.inner, instant as int, search_radius, a.next_transition)
                &&& windows_found(self.inner, instant as int, search_radius, a.matches@)
            },
    {
        self.inner.instant_analysis(instant, search_radius)
    }
}

impl TimeGridCalendar {
    /// Sets the capacity used where no override applies; it cannot be negative.
    pub fn SetDefaultCapacity(&mut self, capacity: i32) -> (r: Result<(), TimeGridError>)
        requires
            wf(old(self).inner),
        ensures
            wf(final(self).inner),
            composite(old(self).inner) ==> r == Err::<(), TimeGridError>(
                TimeGridError::CompositeNotEditable,
            ),
            !composite(old(self).inner) && capacity < 0 ==> r == Err::<(), TimeGridError>(
                TimeGridError::NegativeCapacity,
            ),
            r is Err ==> final(self).inner == old(self).inner,
            r is Ok ==> final(self).inner == (Calendar { default_capacity: capacity, ..old(self).inner }),
            r is Ok <==> !composite(old(self).inner) && capacity >= 0,
    {
        self.inner.set_default_capacity(capacity)
    }

    /// Adds a weekly open rule.
    pub fn AddOpenRule(&mut self, day: u8, start: i64, end: i64) -> (r: Result<(), TimeGridError>)
        requires
            wf(old(self).inner),
            valid_time(start as int),
            valid_time(end as int),
        ensures
            wf(final(self).inner),
            composite(old(self).inner) ==> r == Err::<(), TimeGridError>(
                TimeGridError::CompositeNotEditable,
            ),
            !composite(old(self).inner) && rule_error(day, start, end) is Some ==> r == Err::<(), TimeGridError>(rule_error(day, start, end)->0),
            r is Ok <==> !composite(old(self).inner) && rule_error(day, start, end) is None,
            r is Err ==> final(self).inner == old(self).inner,
            r is Ok ==> final(self).inner == (Calendar {
                open_rules: final(self).inner.open_rules,
                ..old(self).inner
            }) && final(self).inner.open_rules@ == old(self).inner.open_rules@.push(
                WeeklyRule { day, start, end },
            ),
    {
        self.inner.add_open_rule(day, start, end)
    }

    /// Adds the same open rule on Monday through Friday.
    pub fn AddWeekdayOpenRule(&mut self, start: i64, end: i64) -> (r: Result<(), TimeGridError>)
        requires
            wf(old(self).inner),
            valid_time(start as int),
            valid_time(end as int),
        ensures
            wf(final(self).inner),
            composite(old(self).inner) ==> r == Err::<(), TimeGridError>(
                TimeGridError::CompositeNotEditable,
            ),
            !composite(old(self).inner) && start == end ==> r == Err::<(), TimeGridError>(
                TimeGridError::SameStartAndEnd,
            ),
            r is Ok <==> !composite(old(self).inner) && start != end,
            r is Err ==> final(self).inner == old(self).inner,
            r is Ok ==> final(self).inner == (Calendar {
                open_rules: final(self).inner.open_rules,
                ..old(self).inner
            }) && final(self).inner.open_rules@ == old(self).inner.open_rules@ + weekday_rules(start, end),
    {
        self.inner.add_weekday_open_rule(start, end)
    }

    /// Adds a weekly break rule.
    pub fn AddBreakRule(&mut self, day: u8, start: i64, end: i64) -> (r: Result<(), TimeGridError>)
        requires
            wf(old(self).inner),
            valid_time(start as int),
            valid_time(end as int),
        ensures
            wf(final(self).inner),
            composite(old(self).inner) ==> r == Err::<(), TimeGridError>(
                TimeGridError::CompositeNotEditable,
            ),
            !composite(old(self).inner) && rule_error(day, start, end) is Some ==> r == Err::<(), TimeGridError>(rule_error(day, start, end)->0),
            r is Ok <==> !composite(old(self).inner) && rule_error(day, start, end) is None,
            r is Err ==> final(self).inner == old(self).inner,
            r is Ok ==> final(self).inner == (Calendar {
                break_rules: final(self).inner.break_rules,
                ..old(self).inner
            }) && final(self).inner.break_rules@ == old(self).inner.break_rules@.push(
                WeeklyRule { day, start, end },
            ),
    {
        self.inner.add_break_rule(day, start, end)
    }

    /// Adds the same break rule on Monday through Friday.
    pub fn AddWeekdayBreakRule(&mut self, start: i64, end: i64) -> (r: Result<(), TimeGridError>)
        requires
            wf(old(self).inner),
            valid_time(start as int),
            valid_time(end as int),
        ensures
            wf(final(self).inner),
            composite(old(self).inner) ==> r == Err::<(), TimeGridError>(
                TimeGridError::CompositeNotEditable,
            ),
            !composite(old(self).inner) && start == end ==> r == Err::<(), TimeGridError>(
                TimeGridError::SameStartAndEnd,
            ),
            r is Ok <==> !composite(old(self).inner) && start != end,
            r is Err ==> final(self).inner == old(self).inner,
            r is Ok ==> final(self).inner == (Calendar {
                break_rules: final(self).inner.break_rules,
                ..old(self).inner
            }) && final(self).inner.break_rules@ == old(self).inner.break_rules@ + weekday_rules(start, end),
    {
        self.inner.add_weekday_break_rule(start, end)
    }

    /// Adds a dated open window.
    pub fn AddOpenWindow(&mut self, start: i64, end: i64) -> (r: Result<(), TimeGridError>)
        requires
            wf(old(self).inner),
            valid_instant(start as int),
            valid_instant(end as int),
        ensures
            wf(final(self).inner),
            composite(old(self).inner) ==> r == Err::<(), TimeGridError>(
                TimeGridError::CompositeNotEditable,
            ),
            !composite(old(self).inner) && end < start ==> r == Err::<(), TimeGridError>(
                TimeGridError::EndBeforeStart,
            ),
            r is Ok <==> !composite(old(self).inner) && start <= end,
            r is Err ==> final(self).inner == old(self).inner,
            r is Ok ==> final(self).inner == (Calendar {
                open_windows: final(self).inner.open_windows,
                ..old(self).inner
            }) && final(self).inner.open_windows@ == old(self).inner.open_windows@.push(Window { start, end }),
    {
        self.inner.add_open_window(start, end)
    }

    /// Closes the whole of `date`.
    pub fn AddHoliday(&mut self, date: i64) -> (r: Result<(), TimeGridError>)
        requires
            wf(old(self).inner),
            valid_date(date as int),
        ensures
            wf(final(self).inner),
            date == MAX_DATE ==> r == Err::<(), TimeGridError>(TimeGridError::DateOverflow),
            date < MAX_DATE && composite(old(self).inner) ==> r == Err::<(), TimeGridError>(
                TimeGridError::CompositeNotEditable,
            ),
            r is Ok <==> date < MAX_DATE && !composite(old(self).inner),
            r is Err ==> final(self).inner == old(self).inner,
            r is Ok ==> final(self).inner == (Calendar {
                closed_windows: final(self).inner.closed_windows,
                ..old(self).inner
            }) && final(self).inner.closed_windows@ == old(self).inner.closed_windows@.push(
                Window { start: at_time(date as int, 0) as i64, end: at_time(date + 1, 0) as i64 },
            ),
    {
        self.inner.add_holiday(date)
    }

    /// Adds a dated closed window.
    pub fn AddDowntime(&mut self, start: i64, end: i64) -> (r: Result<(), TimeGridError>)
        requires
            wf(old(self).inner),
            valid_instant(start as int),
            valid_instant(end as int),
        ensures
            wf(final(self).inner),
            composite(old(self).inner) ==> r == Err::<(), TimeGridError>(
                TimeGridError::CompositeNotEditable,
            ),
            !composite(old(self).inner) && end < start ==> r == Err::<(), TimeGridError>(
                TimeGridError::EndBeforeStart,
            ),
            r is Ok <==> !composite(old(self).inner) && start <= end,
            r is Err ==> final(self).inner == old(self).inner,
            r is Ok ==> final(self).inner == (Calendar {
                closed_windows: final(self).inner.closed_windows,
                ..old(self).inner
            }) && final(self).inner.closed_windows@ == old(self).inner.closed_windows@.push(
                Window { start, end },
            ),
    {
        self.inner.add_closed_window(start, end)
    }

    /// Adds a window in which the capacity is `capacity`.
    pub fn AddCapacityOverride(&mut self, start: i64, end: i64, capacity: i32) -> (r: Result<
        (),
        TimeGridError,
    >)
        requires
            wf(old(self).inner),
            valid_instant(start as int),
            valid_instant(end as int),
        ensures
            wf(final(self).inner),
            composite(old(self).inner) ==> r == Err::<(), TimeGridError>(
                TimeGridError::CompositeNotEditable,
            ),
            !composite(old(self).inner) && capacity < 0 ==> r == Err::<(), TimeGridError>(
                TimeGridError::NegativeCapacity,
            ),
            !composite(old(self).inner) && capacity >= 0 && end < start ==> r == Err::<(), TimeGridError>(
                TimeGridError::EndBeforeStart,
            ),
            r is Ok <==> !composite(old(self).inner) && capacity >= 0 && start <= end,
            r is Err ==> final(self).inner == old(self).inner,
            r is Ok ==> final(self).inner == (Calendar {
                capacity_overrides: final(self).inner.capacity_overrides,
                ..old(self).inner
            }) && final(self).inner.capacity_overrides@ == old(self).inner.capacity_overrides@.push(
                CapacityWindow { window: Window { start, end }, capacity },
            ),
    {
        self.inner.add_capacity_override(start, end, capacity)
    }

    /// Adds the same open rule on Monday through Friday.
    pub fn OpenWeekdays(&mut self, start: i64, end: i64) -> (r: Result<(), TimeGridError>)
        requires
            wf(old(self).inner),
            valid_time(start as int),
            valid_time(end as int),
        ensures
            wf(final(self).inner),
            composite(old(self).inner) ==> r == Err::<(), TimeGridError>(
                TimeGridError::CompositeNotEditable,
            ),
            !composite(old(self).inner) && start == end ==> r == Err::<(), TimeGridError>(
                TimeGridError::SameStartAndEnd,
            ),
            r is Ok <==> !composite(old(self).inner) && start != end,
            r is Err ==> final(self).inner == old(self).inner,
            r is Ok ==> final(self).inner == (Calendar {
                open_rules: final(self).inner.open_rules,
                ..old(self).inner
            }) && final(self).inner.open_rules@ == old(self).inner.open_rules@ + weekday_rules(start, end),
    {
        self.AddWeekdayOpenRule(start, end)
    }

    /// Adds the same break rule on Monday through Friday.
    pub fn BreakWeekdays(&mut self, start: i64, end: i64) -> (r: Result<(), TimeGridError>)
        requires
            wf(old(self).inner),
            valid_time(start as int),
            valid_time(end as int),
        ensures
            wf(final(self).inner),
            composite(old(self).inner) ==> r == Err::<(), TimeGridError>(
                TimeGridError::CompositeNotEditable,
            ),
            !composite(old(self).inner) && start == end ==> r == Err::<(), TimeGridError>(
                TimeGridError::SameStartAndEnd,
            ),
            r is Ok <==> !composite(old(self).inner) && start != end,
            r is Err ==> final(self).inner == old(self).inner,
            r is Ok ==> final(self).inner == (Calendar {
                break_rules: final(self).inner.break_rules,
                ..old(self).inner
            }) && final(self).inner.break_rules@ == old(self).inner.break_rules@ + weekday_rules(start, end),
    {
        self.AddWeekdayBreakRule(start, end)
    }

    /// Adds a dated open window.
    pub fn Open(&mut self, start: i64, end: i64) -> (r: Result<(), TimeGridError>)
        requires
            wf(old(self).inner),
            valid_instant(start as int),
            valid_instant(end as int),
        ensures
            wf(final(self).inner),
            composite(old(self).inner) ==> r == Err::<(), TimeGridError>(
                TimeGridError::CompositeNotEditable,
            ),
            !composite(old(self).inner) && end < start ==> r == Err::<(), TimeGridError>(
                TimeGridError::EndBeforeStart,
            ),
            r is Ok <==> !composite(old(self).inner) && start <= end,
            r is Err ==> final(self).inner == old(self).inner,
            r is Ok ==> final(self).inner == (Calendar {
                open_windows: final(self).inner.open_windows,
                ..old(self).inner
            }) && final(self).inner.open_windows@ == old(self).inner.open_windows@.push(Window { start, end }),
    {
        self.AddOpenWindow(start, end)
    }

    /// Adds a dated closed window.
    pub fn Down(&mut self, start: i64, end: i64) -> (r: Result<(), TimeGridError>)
        requires
            wf(old(self).inner),
            valid_instant(start as int),
            valid_instant(end as int),
        ensures
            wf(final(self).inner),
            composite(old(self).inner) ==> r == Err::<(), TimeGridError>(
                TimeGridError::CompositeNotEditable,
            ),
            !composite(old(self).inner) && end < start ==> r == Err::<(), TimeGridError>(
                TimeGridError::EndBeforeStart,
            ),
            r is Ok <==> !composite(old(self).inner) && start <= end,
            r is Err ==> final(self).inner == old(self).inner,
            r is Ok ==> final(self).inner == (Calendar {
                closed_windows: final(self).inner.closed_windows,
                ..old(self).inner
            }) && final(self).inner.closed_windows@ == old(self).inner.closed_windows@.push(
                Window { start, end },
            ),
    {
        self.AddDowntime(start, end)
    }

    /// Adds a dated closed window.
    pub fn AddClosedWindow(&mut self, start: i64, end: i64) -> (r: Result<(), TimeGridError>)
        requires
            wf(old(self).inner),
            valid_instant(start as int),
            valid_instant(end as int),
        ensures
            wf(final(self).inner),
            composite(old(self).inner) ==> r == Err::<(), TimeGridError>(
                TimeGridError::CompositeNotEditable,
            ),
            !composite(old(self).inner) && end < start ==> r == Err::<(), TimeGridError>(
                TimeGridError::EndBeforeStart,
            ),
            r is Ok <==> !composite(old(self).inner) && start <= end,
            r is Err ==> final(self).inner == old(self).inner,
            r is Ok ==> final(self).inner == (Calendar {
                closed_windows: final(self).inner.closed_windows,
                ..old(self).inner
            }) && final(self).inner.closed_windows@ == old(self).inner.closed_windows@.push(
                Window { start, end },
            ),
    {
        self.AddDowntime(start, end)
    }

    /// Sets the named open window `id`, replacing an entry with the same id.
    pub fn SetOpenWindow(&mut self, id: String, start: i64, end: i64) -> (r: Result<
        (),
        TimeGridError,
    >)
        requires
            wf(old(self).inner),
            valid_instant(start as int),
            valid_instant(end as int),
        ensures
            wf(final(self).inner),
            composite(old(self).inner) ==> r == Err::<(), TimeGridError>(
                TimeGridError::CompositeNotEditable,
            ),
            !composite(old(self).inner) && entry_error(id@, 0, start, end, 0) is Some ==> r
                == Err::<(), TimeGridError>(entry_error(id@, 0, start, end, 0)->0),
            r is Ok <==> !composite(old(self).inner) && entry_error(id@, 0, start, end, 0) is None,
            r is Err ==> final(self).inner == old(self).inner,
            r is Ok ==> final(self).inner == (Calendar { entries: final(self).inner.entries, ..old(self).inner })
                && final(self).inner.entries@ == entries_with(
                old(self).inner.entries@,
                Entry { id, kind: 0, window: Window { start, end }, capacity: 0 },
            ),
    {
        self.inner.set_entry(id, 0, start, end, 0)
    }

    /// Sets the named closed window `id`, replacing an entry with the same id.
    pub fn SetClosedWindow(&mut self, id: String, start: i64, end: i64) -> (r: Result<
        (),
        TimeGridError,
    >)
        requires
            wf(old(self).inner),
            valid_instant(start as int),
            valid_instant(end as int),
        ensures
            wf(final(self).inner),
            composite(old(self).inner) ==> r == Err::<(), TimeGridError>(
                TimeGridError::CompositeNotEditable,
            ),
            !composite(old(self).inner) && entry_error(id@, 1, start, end, 0) is Some ==> r
                == Err::<(), TimeGridError>(entry_error(id@, 1, start, end, 0)->0),
            r is Ok <==> !composite(old(self).inner) && entry_error(id@, 1, start, end, 0) is None,
            r is Err ==> final(self).inner == old(self).inner,
            r is Ok ==> final(self).inner == (Calendar { entries: final(self).inner.entries, ..old(self).inner })
                && final(self).inner.entries@ == entries_with(
                old(self).inner.entries@,
                Entry { id, kind: 1, window: Window { start, end }, capacity: 0 },
            ),
    {
        self.inner.set_entry(id, 1, start, end, 0)
    }

    /// Sets the named capacity window `id`, replacing an entry with the same id.
    pub fn SetCapacityWindow(&mut self, id: String, start: i64, end: i64, capacity: i32) -> (r: Result<
        (),
        TimeGridError,
    >)
        requires
            wf(old(self).inner),
            valid_instant(start as int),
            valid_instant(end as int),
        ensures
            wf(final(self).inner),
            composite(old(self).inner) ==> r == Err::<(), TimeGridError>(
                TimeGridError::CompositeNotEditable,
            ),
            !composite(old(self).inner) && entry_error(id@, 2, start, end, capacity) is Some ==> r
                == Err::<(), TimeGridError>(entry_error(id@, 2, start, end, capacity)->0),
            r is Ok <==> !composite(old(self).inner) && entry_error(id@, 2, start, end, capacity) is None,
            r is Err ==> final(self).inner == old(self).inner,
            r is Ok ==> final(self).inner == (Calendar { entries: final(self).inner.entries, ..old(self).inner })
                && final(self).inner.entries@ == entries_with(
                old(self).inner.entries@,
                Entry { id, kind: 2, window: Window { start, end }, capacity: capacity },
            ),
    {
        self.inner.set_entry(id, 2, start, end, capacity)
    }
}

impl TimeGridCalendar {
    /// The entry with id `id`, if there is one; fails when the id is blank.
    pub fn GetEntry(&self, id: String) -> (r: Result<Option<TimeGridEntry>, TimeGridError>)
        ensures
            blank(id@) ==> r == Err::<Option<TimeGridEntry>, TimeGridError>(TimeGridError::EmptyEntryId),
            !blank(id@) ==> r is Ok,
            r matches Ok(None) ==> position_of(self.inner.entries@, id@) == -1,
            r matches Ok(Some(e)) ==> position_of(self.inner.entries@, id@) >= 0 && e.inner
                == self.inner.entries@[position_of(self.inner.entries@, id@)],
    {
        validate_entry_id(id.as_str())?;
        match entry_position(&self.inner.entries, &id) {
            Some(index) => Ok(Some(TimeGridEntry { inner: self.inner.entries[index].duplicate() })),
            None => Ok(None),
        }
    }

    /// Removes the entry with id `id`; says whether there was one.
    pub fn RemoveEntry(&mut self, id: String) -> (r: Result<bool, TimeGridError>)
        requires
            wf(old(self).inner),
        ensures
            wf(final(self).inner),
            composite(old(self).inner) ==> r == Err::<bool, TimeGridError>(TimeGridError::CompositeNotEditable),
            !composite(old(self).inner) && blank(id@) ==> r == Err::<bool, TimeGridError>(TimeGridError::EmptyEntryId),
            r is Ok <==> !composite(old(self).inner) && !blank(id@),
            r is Err ==> final(self).inner == old(self).inner,
            r matches Ok(found) ==> found == (position_of(old(self).inner.entries@, id@) >= 0),
            r is Ok ==> only_entries_changed(old(self).inner, final(self).inner),
            r matches Ok(found) ==> (found ==> final(self).inner.entries@ == old(self).inner.entries@.remove(
                position_of(old(self).inner.entries@, id@),
            )),
            r matches Ok(found) ==> (!found ==> final(self).inner.entries@ == old(self).inner.entries@),
    {
        self.inner.ensure_editable()?;
        validate_entry_id(id.as_str())?;
        match entry_position(&self.inner.entries, &id) {
            Some(index) => {
                let ghost before = self.inner.entries@;
                let _removed = self.inner.entries.remove(index);
                proof {
                    let es = self.inner.entries@;
                    assert forall|i: int| 0 <= i < es.len() implies crate::calendar::valid_entry(#[trigger] es[i]) by {
                        if i < index {
                            assert(es[i] == before[i]);
                        } else {
                            assert(es[i] == before[i + 1]);
                        }
                    }
                    assert forall|i: int, j: int| 0 <= i < j < es.len() implies (#[trigger] es[i]).id@ != (#[trigger] es[j]).id@ by {
                        let bi = if i < index { i } else { i + 1 };
                        let bj = if j < index { j } else { j + 1 };
                        assert(es[i] == before[bi] && es[j] == before[bj]);
                    }
                }
                Ok(true)
            },
            None => Ok(false),
        }
    }

    /// Removes the weekly open rules.
    pub fn ClearOpenRules(&mut self) -> (r: Result<(), TimeGridError>)
        requires
            wf(old(self).inner),
        ensures
            wf(final(self).inner),
            composite(old(self).inner) ==> r == Err::<(), TimeGridError>(TimeGridError::CompositeNotEditable),
            !composite(old(self).inner) ==> r is Ok,
            r is Err ==> final(self).inner == old(self).inner,
            r is Ok ==> final(self).inner == (Calendar { open_rules: final(self).inner.open_rules, ..old(self).inner })
                && final(self).inner.open_rules@.len() == 0,
    {
        self.inner.ensure_editable()?;
        self.inner.open_rules.clear();
        Ok(())
    }

    /// Removes the dated open windows.
    pub fn ClearOpenWindows(&mut self) -> (r: Result<(), TimeGridError>)
        requires
            wf(old(self).inner),
        ensures
            wf(final(self).inner),
            composite(old(self).inner) ==> r == Err::<(), TimeGridError>(TimeGridError::CompositeNotEditable),
            !composite(old(self).inner) ==> r is Ok,
            r is Err ==> final(self).inner == old(self).inner,
            r is Ok ==> final(self).inner == (Calendar { open_windows: final(self).inner.open_windows, ..old(self).inner })
                && final(self).inner.open_windows@.len() == 0,
    {
        self.inner.ensure_editable()?;
        self.inner.open_windows.clear();
        Ok(())
    }

    /// Removes the weekly break rules.
    pub fn ClearBreakRules(&mut self) -> (r: Result<(), TimeGridError>)
        requires
            wf(old(self).inner),
        ensures
            wf(final(self).inner),
            composite(old(self).inner) ==> r == Err::<(), TimeGridError>(TimeGridError::CompositeNotEditable),
            !composite(old(self).inner) ==> r is Ok,
            r is Err ==> final(self).inner == old(self).inner,
            r is Ok ==> final(self).inner == (Calendar { break_rules: final(self).inner.break_rules, ..old(self).inner })
                && final(self).inner.break_rules@.len() == 0,
    {
        self.inner.ensure_editable()?;
        self.inner.break_rules.clear();
        Ok(())
    }

    /// Removes the dated closed windows.
    pub fn ClearClosedWindows(&mut self) -> (r: Result<(), TimeGridError>)
        requires
            wf(old(self).inner),
        ensures
            wf(final(self).inner),
            composite(old(self).inner) ==> r == Err::<(), TimeGridError>(TimeGridError::CompositeNotEditable),
            !composite(old(self).inner) ==> r is Ok,
            r is Err ==> final(self).inner == old(self).inner,
            r is Ok ==> final(self).inner == (Calendar { closed_windows: final(self).inner.closed_windows, ..old(self).inner })
                && final(self).inner.closed_windows@.len() == 0,
    {
        self.inner.ensure_editable()?;
        self.inner.closed_windows.clear();
        Ok(())
    }

    /// Removes the capacity overrides.
    pub fn ClearCapacityOverrides(&mut self) -> (r: Result<(), TimeGridError>)
        requires
            wf(old(self).inner),
        ensures
            wf(final(self).inner),
            composite(old(self).inner) ==> r == Err::<(), TimeGridError>(TimeGridError::CompositeNotEditable),
            !composite(old(self).inner) ==> r is Ok,
            r is Err ==> final(self).inner == old(self).inner,
            r is Ok ==> final(self).inner == (Calendar { capacity_overrides: final(self).inner.capacity_overrides, ..old(self).inner })
                && final(self).inner.capacity_overrides@.len() == 0,
    {
        self.inner.ensure_editable()?;
        self.inner.capacity_overrides.clear();
        Ok(())
    }

    /// Removes the named entries.
    pub fn ClearEntries(&mut self) -> (r: Result<(), TimeGridError>)
        requires
            wf(old(self).inner),
        ensures
            wf(final(self).inner),
            composite(old(self).inner) ==> r == Err::<(), TimeGridError>(TimeGridError::CompositeNotEditable),
            !composite(old(self).inner) ==> r is Ok,
            r is Err ==> final(self).inner == old(self).inner,
            r is Ok ==> final(self).inner == (Calendar { entries: final(self).inner.entries, ..old(self).inner })
                && final(self).inner.entries@.len() == 0,
    {
        self.inner.ensure_editable()?;
        self.inner.entries.clear();
        Ok(())
    }

    /// Removes everything: the calendar becomes a new empty one.
    pub fn Clear(&mut self) -> (r: Result<(), TimeGridError>)
        requires
            wf(old(self).inner),
        ensures
            wf(final(self).inner),
            composite(old(self).inner) ==> r == Err::<(), TimeGridError>(TimeGridError::CompositeNotEditable),
            !composite(old(self).inner) ==> r is Ok,
            r is Err ==> final(self).inner == old(self).inner,
            r is Ok ==> !composite(final(self).inner) && final(self).inner.default_capacity == 1
                && final(self).inner.open_rules@.len() == 0 && final(self).inner.break_rules@.len() == 0
                && final(self).inner.open_windows@.len() == 0 && final(self).inner.closed_windows@.len() == 0
                && final(self).inner.capacity_overrides@.len() == 0 && final(self).inner.entries@.len() == 0,
    {
        self.inner.ensure_editable()?;
        self.inner = Calendar::new_default();
        Ok(())
    }

    /// The calendar can work at the target: at the instant, or throughout the window.
    pub fn CanWork(&self, target: Target) -> (r: Result<bool, TimeGridError>)
        requires
            wf(self.inner),
            valid_target(target),
        ensures
            r matches Ok(b) && target_has(self.inner, target, 1, b),
    {
        match target {
            Target::Window(w) => {
                let q = w.inner;
                if q.is_empty() {
                    return Ok(true);
                }
                crate::queries::covers_range(&self.inner, q.start, q.end, 1)
            },
            Target::Instant(t) => Ok(self.inner.get_capacity_at(t) > 0),
        }
    }

    /// The capacity is at least `minimum_capacity`, which must be positive, at
    /// the target: at the instant, or throughout the window.
    pub fn HasCapacity(&self, target: Target, minimum_capacity: i32) -> (r: Result<bool, TimeGridError>)
        requires
            wf(self.inner),
            valid_target(target),
        ensures
            minimum_capacity <= 0 ==> r == Err::<bool, TimeGridError>(TimeGridError::RequiredCapacityNotPositive),
            minimum_capacity > 0 ==> (r matches Ok(b) && target_has(self.inner, target, minimum_capacity as int, b)),
    {
        crate::calendar::validate_positive_capacity(minimum_capacity)?;
        match target {
            Target::Window(w) => {
                let q = w.inner;
                if q.is_empty() {
                    return Ok(true);
                }
                crate::queries::covers_range(&self.inner, q.start, q.end, minimum_capacity)
            },
            Target::Instant(t) => Ok(self.inner.get_capacity_at(t) >= minimum_capacity),
        }
    }
}

impl TimeGridCalendar {
    /// The capacity at `instant`.
    pub fn GetCapacityAt(&self, instant: i64) -> (c: i32)
        requires
            wf(self.inner),
            valid_instant(instant as int),
        ensures
            c == capacity_at(self.inner, instant as int),
    {
        self.inner.get_capacity_at(instant)
    }

    /// The first open instant at or after `start`, within the search range.
    pub fn GetNextOpenTime(&self, start: i64, search_until: Option<i64>) -> (r: Result<Option<i64>, TimeGridError>)
        requires
            wf(self.inner),
            valid_instant(start as int),
            work_search_fits(start as int, 1, search_until),
        ensures
            next_open_found(self.inner, start, search_until, r),
    {
        self.inner.get_next_open_time(start, search_until)
    }

    /// The instant at which `duration` of working time has elapsed from `start`.
    pub fn AddWorkDuration(&self, start: i64, duration: i128, search_until: Option<i64>) -> (r: Result<i64, TimeGridError>)
        requires
            wf(self.inner),
            valid_instant(start as int),
            valid_span(duration as int),
            work_search_fits(start as int, duration as int, search_until),
        ensures
            work_added(self.inner, start, duration, search_until, r),
    {
        self.inner.add_work_duration(start, duration, search_until)
    }

    /// Like `AddWorkDuration`, with the working windows consumed.
    pub fn TraceWorkDuration(&self, start: i64, duration: i128, search_until: Option<i64>) -> (r: Result<WorkingTimeTrace, TimeGridError>)
        requires
            wf(self.inner),
            valid_instant(start as int),
            valid_span(duration as int),
            work_search_fits(start as int, duration as int, search_until),
        ensures
            work_traced(self.inner, start, duration, search_until, r),
    {
        self.inner.trace_work_duration(start, duration, search_until)
    }

    /// The working time of `[start, end)`, in microseconds.
    pub fn GetWorkingDuration(&self, start: i64, end: i64) -> (r: Result<i128, TimeGridError>)
        requires
            wf(self.inner),
            valid_instant(start as int),
            valid_instant(end as int),
        ensures
            working_measured(self.inner, start, end, r),
    {
        self.inner.get_working_duration(start, end)
    }

    /// The working time of `[start, end)`, in ticks of a tenth of a microsecond.
    pub fn GetWorkingTicks(&self, start: i64, end: i64) -> (r: Result<i64, TimeGridError>)
        requires
            wf(self.inner),
            valid_instant(start as int),
            valid_instant(end as int),
        ensures
            crate::queries::working_ticks(self.inner, start, end, r),
    {
        crate::queries::ticks_between(&self.inner, start, end)
    }

    /// The open windows of `[start, end)`.
    pub fn GetOpenWindows(&self, start: i64, end: i64) -> (r: Result<Vec<Window>, TimeGridError>)
        requires
            wf(self.inner),
            valid_instant(start as int),
            valid_instant(end as int),
        ensures
            end < start ==> r == Err::<Vec<Window>, TimeGridError>(TimeGridError::EndBeforeStart),
            start <= end ==> r is Ok,
            r matches Ok(ws) ==> windows_at_level(self.inner, start, end, 1, ws@),
    {
        self.inner.get_open_windows(start, end)
    }

    /// The windows of `[start, end)` with capacity at least `minimum_capacity`,
    /// which must be positive.
    pub fn GetCapacityWindows(&self, start: i64, end: i64, minimum_capacity: i32) -> (r: Result<Vec<Window>, TimeGridError>)
        requires
            wf(self.inner),
            valid_instant(start as int),
            valid_instant(end as int),
        ensures
            minimum_capacity <= 0 ==> r == Err::<Vec<Window>, TimeGridError>(TimeGridError::RequiredCapacityNotPositive),
            minimum_capacity > 0 && end < start ==> r == Err::<Vec<Window>, TimeGridError>(TimeGridError::EndBeforeStart),
            r is Ok <==> minimum_capacity > 0 && start <= end,
            r matches Ok(ws) ==> windows_at_level(self.inner, start, end, minimum_capacity as int, ws@),
    {
        self.inner.get_capacity_windows(start, end, minimum_capacity)
    }

    /// The unavailable windows of `[start, end)`.
    pub fn GetUnavailableWindows(&self, start: i64, end: i64) -> (r: Result<Vec<Window>, TimeGridError>)
        requires
            wf(self.inner),
            valid_instant(start as int),
            valid_instant(end as int),
        ensures
            end < start ==> r == Err::<Vec<Window>, TimeGridError>(TimeGridError::EndBeforeStart),
            start <= end ==> r is Ok,
            r matches Ok(ws) ==> windows_unavailable(self.inner, start, end, ws@),
    {
        self.inner.get_unavailable_windows(start, end)
    }

    /// The state windows of `[start, end)`.
    pub fn GetStateWindows(&self, start: i64, end: i64) -> (r: Result<Vec<StateWindow>, TimeGridError>)
        requires
            wf(self.inner),
            valid_instant(start as int),
            valid_instant(end as int),
        ensures
            end < start ==> r == Err::<Vec<StateWindow>, TimeGridError>(TimeGridError::EndBeforeStart),
            start <= end ==> r is Ok,
            r matches Ok(st) ==> states_of(self.inner, start, end, st@),
    {
        self.inner.get_state_windows(start, end)
    }

    /// The windows holding `instant`.
    pub fn GetWindowsAt(&self, instant: i64, search_radius: Option<i128>) -> (r: Result<Vec<WindowMatch>, TimeGridError>)
        requires
            wf(self.inner),
            valid_instant(instant as int),
            radius_fits(instant as int, search_radius),
        ensures
            radius_of(search_radius) <= 0 ==> r == Err::<Vec<WindowMatch>, TimeGridError>(TimeGridError::SearchRadiusNotPositive),
            radius_of(search_radius) > 0 ==> r is Ok,
            r matches Ok(ms) ==> windows_found(self.inner, instant as int, search_radius, ms@),
    {
        self.inner.get_windows_at(instant, search_radius)
    }

    /// The open state window holding `instant`.
    pub fn GetCurrentOpenWindow(&self, instant: i64, search_radius: Option<i128>) -> (r: Result<Option<Window>, TimeGridError>)
        requires
            wf(self.inner),
            valid_instant(instant as int),
            radius_fits(instant as int, search_radius),
        ensures
            radius_of(search_radius) <= 0 ==> r == Err::<Option<Window>, TimeGridError>(TimeGridError::SearchRadiusNotPositive),
            radius_of(search_radius) > 0 ==> r is Ok,
            r matches Ok(w) ==> current_window_found(self.inner, instant as int, search_radius, true, w),
    {
        self.inner.get_current_open_window(instant, search_radius)
    }

    /// The unavailable state window holding `instant`.
    pub fn GetCurrentUnavailableWindow(&self, instant: i64, search_radius: Option<i128>) -> (r: Result<Option<Window>, TimeGridError>)
        requires
            wf(self.inner),
            valid_instant(instant as int),
            radius_fits(instant as int, search_radius),
        ensures
            radius_of(search_radius) <= 0 ==> r == Err::<Option<Window>, TimeGridError>(TimeGridError::SearchRadiusNotPositive),
            radius_of(search_radius) > 0 ==> r is Ok,
            r matches Ok(w) ==> current_window_found(self.inner, instant as int, search_radius, false, w),
    {
        self.inner.get_current_unavailable_window(instant, search_radius)
    }

    /// The first change of capacity after `instant`.
    pub fn GetNextTransitionTime(&self, instant: i64, search_radius: Option<i128>) -> (r: Result<Option<i64>, TimeGridError>)
        requires
            wf(self.inner),
            valid_instant(instant as int),
            radius_fits(instant as int, search_radius),
        ensures
            radius_of(search_radius) <= 0 ==> r == Err::<Option<i64>, TimeGridError>(TimeGridError::SearchRadiusNotPositive),
            radius_of(search_radius) > 0 ==> r is Ok,
            r matches Ok(x) ==> next_transition_found(self.inner, instant as int, search_radius, x),
    {
        self.inner.get_next_transition_time(instant, search_radius)
    }

    /// The last change of capacity before `instant`.
    pub fn GetPreviousTransitionTime(&self, instant: i64, search_radius: Option<i128>) -> (r: Result<Option<i64>, TimeGridError>)
        requires
            wf(self.inner),
            valid_instant(instant as int),
            radius_fits(instant as int, search_radius),
        ensures
            radius_of(search_radius) <= 0 ==> r == Err::<Option<i64>, TimeGridError>(TimeGridError::SearchRadiusNotPositive),
            radius_of(search_radius) > 0 ==> r is Ok,
            r matches Ok(x) ==> previous_transition_found(self.inner, instant as int, search_radius, x),
    {
        self.inner.get_previous_transition_time(instant, search_radius)
    }

    /// The change of capacity nearest to `instant`.
    pub fn GetNearestTransitionTime(&self, instant: i64, search_radius: Option<i128>) -> (r: Result<Option<i64>, TimeGridError>)
        requires
            wf(self.inner),
            valid_instant(instant as int),
            radius_fits(instant as int, search_radius),
        ensures
            radius_of(search_radius) <= 0 ==> r == Err::<Option<i64>, TimeGridError>(TimeGridError::SearchRadiusNotPositive),
            radius_of(search_radius) > 0 ==> r is Ok,
            r matches Ok(x) ==> nearest_transition_found(self.inner, instant as int, search_radius, x),
    {
        self.inner.get_nearest_transition_time(instant, search_radius)
    }

    /// The first slot of `duration` from `start` on whose capacity is at least
    /// `minimum_capacity` throughout, within the search range.
    pub fn FindFirstSlot(&self, start: i64, duration: i128, minimum_capacity: i32, search_until: Option<i64>) -> (r: Result<Option<Window>, TimeGridError>)
        requires
            wf(self.inner),
            valid_instant(start as int),
            valid_span(duration as int),
            slot_search_fits(start as int, duration as int, minimum_capacity as int, search_until),
        ensures
            slot_found(self.inner, start, duration, minimum_capacity, search_until, r),
    {
        self.inner.find_first_slot(start, duration, minimum_capacity, search_until)
    }
}

/// The rules as the public rule type.
fn rules_out(rules: &Vec<WeeklyRule>) -> (r: Vec<TimeGridWeeklyRule>)
    ensures
        r@.len() == rules@.len(),
        forall|i: int| 0 <= i < r@.len() ==> (#[trigger] r@[i]).inner == rules@[i],
{
    let mut result: Vec<TimeGridWeeklyRule> = Vec::new();
    let mut i: usize = 0;
    while i < rules.len()
        invariant
            i <= rules@.len(),
            result@.len() == i,
            forall|j: int| 0 <= j < i ==> (#[trigger] result@[j]).inner == rules@[j],
        decreases rules@.len() - i,
    {
        result.push(TimeGridWeeklyRule { inner: rules[i] });
        i = i + 1;
    }
    result
}

/// The windows as the public window type.
fn windows_out(windows: &Vec<Window>) -> (r: Vec<TimeWindow>)
    ensures
        r@.len() == windows@.len(),
        forall|i: int| 0 <= i < r@.len() ==> (#[trigger] r@[i]).inner == windows@[i],
{
    let mut result: Vec<TimeWindow> = Vec::new();
    let mut i: usize = 0;
    while i < windows.len()
        invariant
            i <= windows@.len(),
            result@.len() == i,
            forall|j: int| 0 <= j < i ==> (#[trigger] result@[j]).inner == windows@[j],
        decreases windows@.len() - i,
    {
        result.push(TimeWindow { inner: windows[i] });
        i = i + 1;
    }
    result
}

} // verus!
