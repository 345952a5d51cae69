//! The time model: instants, dates, times of day and half-open windows.
//!
//! An instant is a count of microseconds since 1970-01-01T00:00:00 on the
//! proleptic Gregorian calendar, a date is a count of days since that epoch,
//! and a time of day is a count of microseconds since midnight. Durations are
//! signed microsecond counts. The representable instants are those of
//! `chrono::NaiveDateTime` at microsecond precision.
use vstd::prelude::*;

verus! {

/// Microseconds in one day.
pub const MICROS_PER_DAY: i64 = 86_400_000_000;

/// Microseconds in one second.
pub const MICROS_PER_SECOND: i64 = 1_000_000;

/// The first representable date (-262143-01-01), in days since the epoch.
pub const MIN_DATE: i64 = -96_465_292;

/// The last representable date (262142-12-31), in days since the epoch.
pub const MAX_DATE: i64 = 95_026_236;

/// The first representable instant, midnight of `MIN_DATE`.
pub const MIN_INSTANT: i64 = -8_334_601_228_800_000_000;

/// The last representable instant, the last microsecond of `MAX_DATE`.
pub const MAX_INSTANT: i64 = 8_210_266_876_799_999_999;

/// The default capacity of a new calendar.
pub const DEFAULT_CAPACITY: i32 = 1;

/// The default search radius around an instant, in days.
pub const DEFAULT_SEARCH_DAYS: i64 = 7;

/// The default forward search horizon, in days.
pub const DEFAULT_SEARCH_YEARS_DAYS: i64 = 1830;

/// One tick is a tenth of a microsecond.
pub const TICKS_PER_MICROSECOND: i64 = 10;

/// The largest magnitude of a duration, `i64::MAX` milliseconds in microseconds.
pub const MAX_SPAN: i128 = 9_223_372_036_854_775_807_000;

/// An instant that the calendar can represent.
pub open spec fn valid_instant(t: int) -> bool {
    MIN_INSTANT <= t <= MAX_INSTANT
}

/// A time of day.
pub open spec fn valid_time(t: int) -> bool {
    0 <= t < MICROS_PER_DAY
}

/// A representable date.
pub open spec fn valid_date(d: int) -> bool {
    MIN_DATE <= d <= MAX_DATE
}

/// A duration that fits the duration type.
pub open spec fn valid_span(d: int) -> bool {
    -MAX_SPAN <= d <= MAX_SPAN
}

/// The date of an instant.
pub open spec fn date_of(t: int) -> int {
    t / (MICROS_PER_DAY as int)
}

/// The time of day of an instant.
pub open spec fn time_of(t: int) -> int {
    t % (MICROS_PER_DAY as int)
}

/// The instant at time of day `time` on date `date`.
pub open spec fn at_time(date: int, time: int) -> int {
    date * MICROS_PER_DAY + time
}

/// The day of the week of a date, 0 for Sunday through 6 for Saturday.
/// The epoch, 1970-01-01, was a Thursday.
pub open spec fn weekday(date: int) -> int {
    (date + 4) % 7
}

/// An instant that lies strictly between the first and the last representable day.
pub open spec fn core_instant(t: int) -> bool {
    (MIN_DATE + 1) * MICROS_PER_DAY <= t < MAX_DATE * MICROS_PER_DAY
}

/// A range whose every instant is a core instant.
pub open spec fn core_range(start: int, end: int) -> bool {
    (MIN_DATE + 1) * MICROS_PER_DAY <= start && end <= MAX_DATE * MICROS_PER_DAY
}

pub proof fn lemma_date_time_split(t: int)
    ensures
        t == at_time(date_of(t), time_of(t)),
        valid_time(time_of(t)),
{
}

pub proof fn lemma_date_of_at_time(date: int, time: int)
    requires
        valid_time(time),
    ensures
        date_of(at_time(date, time)) == date,
        time_of(at_time(date, time)) == time,
{
    let d = MICROS_PER_DAY as int;
    assert((date * d + time) / d == date) by (nonlinear_arith)
        requires
            d > 0,
            0 <= time < d,
    {
        vstd::arithmetic::div_mod::lemma_fundamental_div_mod_converse(date * d + time, d, date, time);
    }
    assert((date * d + time) % d == time) by (nonlinear_arith)
        requires
            d > 0,
            0 <= time < d,
    {
        vstd::arithmetic::div_mod::lemma_fundamental_div_mod_converse(date * d + time, d, date, time);
    }
}

/// Instants are ordered as their (date, time of day) pairs.
pub proof fn lemma_date_monotone(a: int, b: int)
    requires
        a <= b,
    ensures
        date_of(a) <= date_of(b),
{
    vstd::arithmetic::div_mod::lemma_div_is_ordered(a, b, MICROS_PER_DAY as int);
}

/// An instant lies in the day `date_of(t)`.
pub proof fn lemma_within_date(t: int)
    ensures
        at_time(date_of(t), 0) <= t < at_time(date_of(t) + 1, 0),
{
    lemma_date_time_split(t);
    assert(at_time(date_of(t) + 1, 0) == at_time(date_of(t), 0) + MICROS_PER_DAY);
}

pub proof fn lemma_valid_instant_date(t: int)
    requires
        valid_instant(t),
    ensures
        valid_date(date_of(t)),
{
    lemma_within_date(t);
    if date_of(t) < MIN_DATE {
        assert(date_of(t) + 1 <= MIN_DATE);
        assert(at_time(date_of(t) + 1, 0) <= at_time(MIN_DATE as int, 0)) by (nonlinear_arith)
            requires
                date_of(t) + 1 <= MIN_DATE,
        ;
    }
    if date_of(t) > MAX_DATE {
        assert(at_time(date_of(t), 0) >= at_time(MAX_DATE + 1, 0)) by (nonlinear_arith)
            requires
                date_of(t) >= MAX_DATE + 1,
        ;
    }
}

/// A core instant lies strictly between the first and the last representable date.
pub proof fn lemma_core_dates(t: int)
    requires
        core_instant(t),
    ensures
        MIN_DATE < date_of(t) < MAX_DATE,
        valid_instant(t),
{
    lemma_within_date(t);
    let d = date_of(t);
    if d <= MIN_DATE {
        assert(at_time(d + 1, 0) <= (MIN_DATE + 1) * MICROS_PER_DAY) by (nonlinear_arith)
            requires
                d + 1 <= MIN_DATE + 1,
        ;
    }
    if d >= MAX_DATE {
        assert(at_time(d, 0) >= MAX_DATE * MICROS_PER_DAY) by (nonlinear_arith)
            requires
                d >= MAX_DATE,
        ;
    }
}

/// The day of the week of `date`, numbered from Sunday.
pub fn day_of_week(date: i64) -> (day: u8)
    requires
        valid_date(date as int),
    ensures
        day as int == weekday(date as int),
        day <= 6,
{
    let shifted: u64 = (date - MIN_DATE) as u64;
    let r: u64 = (shifted % 7 + 4) % 7;
    proof {
        let s = shifted as int;
        assert(date as int + 4 == 7 * (-13780756int) + (s + 4));
        vstd::arithmetic::div_mod::lemma_mod_multiples_vanish(-13780756int, s + 4, 7);
        vstd::arithmetic::div_mod::lemma_add_mod_noop(s, 4, 7);
    }
    r as u8
}

/// The day of the week after `day`.
pub fn next_day(day: u8) -> (next: u8)
    requires
        day <= 6,
    ensures
        next as int == (day + 1) % 7,
        next <= 6,
{
    (day + 1) % 7
}

/// The date of an instant.
pub fn date_of_instant(t: i64) -> (date: i64)
    requires
        valid_instant(t as int),
    ensures
        date as int == date_of(t as int),
        valid_date(date as int),
{
    proof {
        lemma_valid_instant_date(t as int);
    }
    let shifted: u64 = (t as i128 - MIN_INSTANT as i128) as u64;
    let q: u64 = shifted / (MICROS_PER_DAY as u64);
    let r: u64 = shifted % (MICROS_PER_DAY as u64);
    proof {
        vstd::arithmetic::div_mod::lemma_fundamental_div_mod(shifted as int, MICROS_PER_DAY as int);
        assert(t as int == (q + MIN_DATE) * MICROS_PER_DAY + r) by (nonlinear_arith)
            requires
                shifted == q * MICROS_PER_DAY + r,
                t as int - MIN_INSTANT == shifted,
                MIN_INSTANT == MIN_DATE * MICROS_PER_DAY,
        ;
        vstd::arithmetic::div_mod::lemma_fundamental_div_mod_converse(
            t as int,
            MICROS_PER_DAY as int,
            q + MIN_DATE,
            r as int,
        );
    }
    q as i64 + MIN_DATE
}

/// The time of day of an instant.
pub fn time_of_instant(t: i64) -> (time: i64)
    requires
        valid_instant(t as int),
    ensures
        time as int == time_of(t as int),
        valid_time(time as int),
{
    let d = date_of_instant(t);
    proof {
        lemma_date_time_split(t as int);
        assert(MIN_DATE * MICROS_PER_DAY <= d * MICROS_PER_DAY <= MAX_DATE * MICROS_PER_DAY) by (nonlinear_arith)
            requires
                MIN_DATE <= d <= MAX_DATE,
        ;
    }
    t - d * MICROS_PER_DAY
}

/// The instant at `time` on `date`.
pub fn instant_at(date: i64, time: i64) -> (t: i64)
    requires
        valid_date(date as int),
        valid_time(time as int),
    ensures
        t as int == at_time(date as int, time as int),
        valid_instant(t as int),
        date_of(t as int) == date,
        time_of(t as int) == time,
{
    proof {
        lemma_date_of_at_time(date as int, time as int);
        assert(MIN_INSTANT <= at_time(date as int, time as int) <= MAX_INSTANT) by (nonlinear_arith)
            requires
                MIN_DATE <= date <= MAX_DATE,
                0 <= time < MICROS_PER_DAY,
        ;
    }
    date * MICROS_PER_DAY + time
}

/// A half-open window `[start, end)` of instants.
#[derive(Clone, Copy, Debug, PartialEq, Eq, Structural)]
pub struct Window {
    pub start: i64,
    pub end: i64,
}

/// Both ends of the window are representable instants.
pub open spec fn valid_window(w: Window) -> bool {
    valid_instant(w.start as int) && valid_instant(w.end as int)
}

/// A window built by `Window::new`: representable and not reversed.
pub open spec fn proper_window(w: Window) -> bool {
    valid_window(w) && w.start <= w.end
}

impl Window {
    /// The instant `t` lies in the window.
    pub open spec fn has(self, t: int) -> bool {
        self.start <= t < self.end
    }

    pub open spec fn span(self) -> int {
        self.end - self.start
    }

    /// The window's intersection, the later start and the earlier end.
    pub open spec fn meet(self, other: Window) -> Window {
        Window {
            start: if self.start < other.start { other.start } else { self.start },
            end: if self.end < other.end { self.end } else { other.end },
        }
    }

    /// Builds a window; fails when `end` is before `start`.
    pub fn new(start: i64, end: i64) -> (r: Result<Window, crate::error::TimeGridError>)
        ensures
            end < start ==> r == Err::<Window, crate::error::TimeGridError>(
                crate::error::TimeGridError::EndBeforeStart,
            ),
            start <= end ==> r == Ok::<Window, crate::error::TimeGridError>(
                Window { start, end },
            ),
    {
        if end < start {
            Err(crate::error::TimeGridError::EndBeforeStart)
        } else {
            Ok(Window { start, end })
        }
    }

    /// The length of the window in microseconds.
    pub fn duration(self) -> (d: i128)
        ensures
            d == self.span(),
    {
        self.end as i128 - self.start as i128
    }

    /// The window holds no instant.
    pub fn is_empty(self) -> (b: bool)
        ensures
            b == (self.end <= self.start),
            b == (forall|t: int| !self.has(t)),
    {
        if self.end <= self.start {
            true
        } else {
            assert(self.has(self.start as int));
            false
        }
    }

    /// The instant lies in the window.
    pub fn contains(self, instant: i64) -> (b: bool)
        ensures
            b == self.has(instant as int),
    {
        self.start <= instant && instant < self.end
    }

    /// The two windows share an instant.
    pub fn overlaps(self, other: Window) -> (b: bool)
        ensures
            b == (exists|t: int| self.has(t) && other.has(t)),
    {
        let b = self.start < self.end && other.start < other.end && self.start < other.end
            && other.start < self.end;
        proof {
            if b {
                let t: int = if self.start < other.start { other.start as int } else { self.start as int };
                assert(self.has(t) && other.has(t));
            }
        }
        b
    }

    /// The common part of two windows, when it holds an instant.
    pub fn intersect(self, other: Window) -> (r: Option<Window>)
        ensures
            r is Some <==> self.meet(other).start < self.meet(other).end,
            r matches Some(w) ==> w == self.meet(other),
            r matches Some(w) ==> w.start < w.end,
            forall|t: int| (r matches Some(w) && w.has(t)) <==> (self.has(t) && other.has(t)),
    {
        let start = if self.start < other.start { other.start } else { self.start };
        let end = if self.end < other.end { self.end } else { other.end };
        if start < end {
            Some(Window { start, end })
        } else {
            None
        }
    }
}

/// The earlier of an optional instant and a candidate.
pub fn min_dt(current: Option<i64>, candidate: i64) -> (r: i64)
    ensures
        r == match current {
            Some(v) => if v < candidate { v } else { candidate },
            None => candidate,
        },
{
    match current {
        Some(v) => if v < candidate { v } else { candidate },
        None => candidate,
    }
}

/// The later of an optional instant and a candidate.
pub fn max_dt(current: Option<i64>, candidate: i64) -> (r: i64)
    ensures
        r == match current {
            Some(v) => if v > candidate { v } else { candidate },
            None => candidate,
        },
{
    match current {
        Some(v) => if v > candidate { v } else { candidate },
        None => candidate,
    }
}

/// Converts a duration in microseconds to ticks of a tenth of a microsecond;
/// fails when the duration does not fit 64-bit microseconds or the ticks overflow.
pub fn duration_to_ticks(duration: i128) -> (r: Result<i64, crate::error::TimeGridError>)
    ensures
        r is Ok <==> (i64::MIN <= duration <= i64::MAX && i64::MIN <= duration
            * TICKS_PER_MICROSECOND <= i64::MAX),
        r matches Ok(v) ==> v == duration * TICKS_PER_MICROSECOND,
        r is Err ==> r == Err::<i64, crate::error::TimeGridError>(
            crate::error::TimeGridError::TickOverflow,
        ),
{
    if duration < i64::MIN as i128 || duration > i64::MAX as i128 {
        return Err(crate::error::TimeGridError::TickOverflow);
    }
    let micros = duration as i64;
    match micros.checked_mul(TICKS_PER_MICROSECOND) {
        Some(v) => Ok(v),
        None => Err(crate::error::TimeGridError::TickOverflow),
    }
}

} // verus!
