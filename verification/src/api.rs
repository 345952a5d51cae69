//! The public value types: windows, rules, capacity windows, entries, state
//! windows, matches and trace steps, and the constants for days and kinds.
#![allow(non_upper_case_globals)]
use vstd::prelude::*;
use crate::error::TimeGridError;
use crate::time::{Window, valid_instant, valid_time, valid_date};
use crate::rules::{WeeklyRule, WindowMatch, rule_contains, rule_window, rule_error, valid_rule};
use crate::calendar::{CapacityWindow, Entry};
use crate::states::StateWindow;
use crate::search::WorkingTimeTraceStep;

verus! {

/// A half-open window `[start, end)` of instants.
#[derive(Clone, Copy, Debug, PartialEq, Eq, Structural)]
pub struct TimeWindow {
    pub inner: Window,
}

impl TimeWindow {
    /// The window from `start` to `end`; fails when `end` is before `start`.
    pub fn new(start: i64, end: i64) -> (r: Result<TimeWindow, TimeGridError>)
        ensures
            end < start ==> r == Err::<TimeWindow, TimeGridError>(TimeGridError::EndBeforeStart),
            start <= end ==> r == Ok::<TimeWindow, TimeGridError>(TimeWindow { inner: Window { start, end } }),
    {
        Ok(TimeWindow { inner: Window::new(start, end)? })
    }

    /// The first instant of the window.
    pub fn Start(&self) -> (r: i64)
        ensures
            r == self.inner.start,
    {
        self.inner.start
    }

    /// The first instant after the window.
    pub fn End(&self) -> (r: i64)
        ensures
            r == self.inner.end,
    {
        self.inner.end
    }

    /// The length of the window in microseconds.
    pub fn Duration(&self) -> (r: i128)
        ensures
            r == self.inner.end - self.inner.start,
    {
        self.inner.duration()
    }

    /// The window holds no instant.
    pub fn IsEmpty(&self) -> (b: bool)
        ensures
            b == (self.inner.end <= self.inner.start),
    {
        self.inner.is_empty()
    }

    /// The window holds `instant`.
    pub fn Contains(&self, instant: i64) -> (b: bool)
        ensures
            b == (self.inner.start <= instant < self.inner.end),
    {
        self.inner.contains(instant)
    }

    /// The two windows share an instant.
    pub fn Overlaps(&self, other: &TimeWindow) -> (b: bool)
        ensures
            b == (exists|t: int| self.inner.has(t) && other.inner.has(t)),
    {
        self.inner.overlaps(other.inner)
    }

    /// The common part of the two windows, when it holds an instant.
    pub fn Intersect(&self, other: &TimeWindow) -> (r: Option<TimeWindow>)
        ensures
            r is Some <==> self.inner.meet(other.inner).start < self.inner.meet(other.inner).end,
            r matches Some(w) ==> w.inner == self.inner.meet(other.inner),
    {
        match self.inner.intersect(other.inner) {
            Some(w) => Some(TimeWindow { inner: w }),
            None => None,
        }
    }
}

/// A weekly rule: a time span on one day of the week, Sunday being 0.
#[derive(Clone, Copy, Debug, PartialEq, Eq, Structural)]
pub struct TimeGridWeeklyRule {
    pub inner: WeeklyRule,
}

impl TimeGridWeeklyRule {
    /// The rule on `day` from `start` to `end` (times of day); fails when the
    /// day is not 0..6 or the two times are equal.
    pub fn new(day: u8, start: i64, end: i64) -> (r: Result<TimeGridWeeklyRule, TimeGridError>)
        requires
            valid_time(start as int),
            valid_time(end as int),
        ensures
            r matches Err(e) ==> rule_error(day, start, end) == Some(e),
            r is Ok <==> rule_error(day, start, end) is None,
            r matches Ok(rule) ==> rule.inner == (WeeklyRule { day, start, end }) && valid_rule(rule.inner),
    {
        Ok(TimeGridWeeklyRule { inner: WeeklyRule::new(day, start, end)? })
    }

    /// The day of the week.
    pub fn Day(&self) -> (r: u8)
        ensures
            r == self.inner.day,
    {
        self.inner.day
    }

    /// The time of day the rule starts.
    pub fn Start(&self) -> (r: i64)
        ensures
            r == self.inner.start,
    {
        self.inner.start
    }

    /// The time of day the rule ends.
    pub fn End(&self) -> (r: i64)
        ensures
            r == self.inner.end,
    {
        self.inner.end
    }

    /// The rule holds `instant`.
    pub fn Contains(&self, instant: i64) -> (b: bool)
        requires
            valid_rule(self.inner),
            valid_instant(instant as int),
        ensures
            b == rule_contains(self.inner, instant as int),
    {
        self.inner.contains(instant)
    }

    /// The window of the rule on `date`.
    pub fn ToWindow(&self, date: i64) -> (w: TimeWindow)
        requires
            valid_rule(self.inner),
            valid_date(date as int),
        ensures
            w.inner == rule_window(self.inner, date as int),
    {
        TimeWindow { inner: self.inner.to_window(date) }
    }
}

/// A window in which the capacity is overridden.
#[derive(Clone, Copy, Debug, PartialEq, Eq, Structural)]
pub struct TimeGridCapacityWindow {
    pub inner: CapacityWindow,
}

impl TimeGridCapacityWindow {
    /// The window of the override.
    pub fn Window(&self) -> (w: TimeWindow)
        ensures
            w.inner == self.inner.window,
    {
        TimeWindow { inner: self.inner.window }
    }

    /// The capacity inside the window.
    pub fn Capacity(&self) -> (c: i32)
        ensures
            c == self.inner.capacity,
    {
        self.inner.capacity
    }
}

/// The days of the week, as the rules number them.
pub struct DayOfWeek;

impl DayOfWeek {
    pub const Sunday: u8 = 0;
    pub const Monday: u8 = 1;
    pub const Tuesday: u8 = 2;
    pub const Wednesday: u8 = 3;
    pub const Thursday: u8 = 4;
    pub const Friday: u8 = 5;
    pub const Saturday: u8 = 6;
}

/// The kinds of named entries.
pub struct TimeGridEntryKind;

impl TimeGridEntryKind {
    pub const Open: u8 = 0;
    pub const Closed: u8 = 1;
    pub const Capacity: u8 = 2;
}

/// The kinds of window matches.
pub struct TimeGridWindowKind;

impl TimeGridWindowKind {
    pub const Available: u8 = 0;
    pub const Unavailable: u8 = 1;
    pub const OpenRule: u8 = 2;
    pub const OpenWindow: u8 = 3;
    pub const BreakRule: u8 = 4;
    pub const ClosedWindow: u8 = 5;
    pub const CapacityOverride: u8 = 6;
}

/// A named entry of a calendar.
#[derive(Debug)]
pub struct TimeGridEntry {
    pub inner: Entry,
}

impl TimeGridEntry {
    /// The id of the entry.
    pub fn Id(&self) -> (r: String)
        ensures
            r@ == self.inner.id@,
    {
        self.inner.id.clone()
    }

    /// The kind of the entry.
    pub fn Kind(&self) -> (r: u8)
        ensures
            r == self.inner.kind,
    {
        self.inner.kind
    }

    /// The window of the entry.
    pub fn Window(&self) -> (w: TimeWindow)
        ensures
            w.inner == self.inner.window,
    {
        TimeWindow { inner: self.inner.window }
    }

    /// The capacity of a capacity entry.
    pub fn Capacity(&self) -> (c: i32)
        ensures
            c == self.inner.capacity,
    {
        self.inner.capacity
    }
}

/// A window of constant capacity.
#[derive(Clone, Copy, Debug, PartialEq, Eq, Structural)]
pub struct TimeGridStateWindow {
    pub inner: StateWindow,
}

impl TimeGridStateWindow {
    /// The window.
    pub fn Window(&self) -> (w: TimeWindow)
        ensures
            w.inner == self.inner.window,
    {
        TimeWindow { inner: self.inner.window }
    }

    /// The capacity throughout the window.
    pub fn Capacity(&self) -> (c: i32)
        ensures
            c == self.inner.capacity,
    {
        self.inner.capacity
    }

    /// The window allows work.
    pub fn CanWork(&self) -> (b: bool)
        ensures
            b == (self.inner.capacity > 0),
    {
        self.inner.can_work()
    }
}

/// A window of the calendar holding an instant, with its kind.
#[derive(Clone, Copy, Debug, PartialEq, Eq, Structural)]
pub struct TimeGridWindowMatch {
    pub inner: WindowMatch,
}

impl TimeGridWindowMatch {
    /// The kind of the window.
    pub fn Kind(&self) -> (k: u8)
        ensures
            k == self.inner.kind,
    {
        self.inner.kind
    }

    /// The window.
    pub fn Window(&self) -> (w: TimeWindow)
        ensures
            w.inner == self.inner.window,
    {
        TimeWindow { inner: self.inner.window }
    }

    /// The capacity the window sets, if it sets one.
    pub fn Capacity(&self) -> (c: Option<i32>)
        ensures
            c == self.inner.capacity,
    {
        self.inner.capacity
    }
}

/// A window of working time consumed while adding working time.
#[derive(Clone, Copy, Debug, PartialEq, Eq, Structural)]
pub struct PyWorkingTimeTraceStep {
    pub inner: WorkingTimeTraceStep,
}

impl PyWorkingTimeTraceStep {
    /// The window consumed.
    pub fn Window(&self) -> (w: TimeWindow)
        ensures
            w.inner == self.inner.window,
    {
        TimeWindow { inner: self.inner.window }
    }

    /// The working time consumed, in microseconds.
    pub fn Duration(&self) -> (d: i128)
        ensures
            d == self.inner.duration,
    {
        self.inner.duration
    }
}

} // verus!
