use chrono::NaiveDate;
use timegrid::{TimeGridCalendar, TimeGridError};

fn at(y: i32, m: u32, d: u32, h: u32, mi: u32) -> i64 {
    NaiveDate::from_ymd_opt(y, m, d).unwrap().and_hms_opt(h, mi, 0).unwrap().and_utc().timestamp_micros()
}

fn hm(h: i64, m: i64) -> i64 {
    (h * 60 + m) * 60_000_000
}

fn hours(h: i128) -> i128 {
    h * 3_600_000_000
}

fn shop() -> TimeGridCalendar {
    let mut c = TimeGridCalendar::Weekdays(hm(8, 0), hm(18, 0)).unwrap();
    c.BreakWeekdays(hm(12, 0), hm(12, 30)).unwrap();
    c.SetDefaultCapacity(2).unwrap();
    c.AddCapacityOverride(at(2026, 1, 6, 9, 0), at(2026, 1, 6, 11, 0), 4).unwrap();
    c.SetClosedWindow("inventory".to_string(), at(2026, 1, 7, 14, 0), at(2026, 1, 8, 10, 0)).unwrap();
    c
}

#[test]
fn open_and_unavailable_windows_partition_a_range() {
    let c = shop();
    let (start, end) = (at(2026, 1, 5, 0, 0), at(2026, 1, 12, 0, 0));
    let open = c.GetOpenWindows(start, end).unwrap();
    let down = c.GetUnavailableWindows(start, end).unwrap();
    let mut all: Vec<(i64, i64)> = open.iter().chain(down.iter()).map(|w| (w.start, w.end)).collect();
    all.sort();
    assert_eq!(all.first().unwrap().0, start);
    assert_eq!(all.last().unwrap().1, end);
    for pair in all.windows(2) {
        assert_eq!(pair[0].1, pair[1].0);
    }
    let mut t = start;
    while t < end {
        let in_open = open.iter().any(|w| w.start <= t && t < w.end);
        let in_down = down.iter().any(|w| w.start <= t && t < w.end);
        assert!(in_open != in_down);
        assert_eq!(in_open, c.GetCapacityAt(t) > 0);
        t += hm(0, 10);
    }
}

#[test]
fn working_duration_adds_up_over_adjacent_ranges() {
    let c = shop();
    let a = at(2026, 1, 5, 10, 0);
    let m = at(2026, 1, 7, 15, 17);
    let b = at(2026, 1, 9, 9, 0);
    let first = c.GetWorkingDuration(a, m).unwrap();
    let second = c.GetWorkingDuration(m, b).unwrap();
    let whole = c.GetWorkingDuration(a, b).unwrap();
    assert_eq!(whole, first + second);
    assert_eq!(c.GetWorkingDuration(a, a), Ok(0));
}

#[test]
fn adding_then_measuring_working_time_agree() {
    let c = shop();
    let start = at(2026, 1, 5, 16, 45);
    for h in [1i128, 3, 9, 10, 25] {
        let reached = c.AddWorkDuration(start, hours(h), None).unwrap();
        assert_eq!(c.GetWorkingDuration(start, reached), Ok(hours(h)));
        assert_eq!(c.GetCapacityAt(reached - 1) > 0, true);
    }
}

#[test]
fn trace_steps_add_up_to_the_request() {
    let c = shop();
    let start = at(2026, 1, 7, 11, 0);
    let trace = c.TraceWorkDuration(start, hours(12), None).unwrap();
    let total: i128 = trace.Steps().iter().map(|s| s.duration).sum();
    assert_eq!(total, hours(12));
    assert_eq!(trace.ConsumedTicks(), trace.RequestedTicks());
    assert_eq!(trace.Result(), c.AddWorkDuration(start, hours(12), None).unwrap());
    for step in trace.Steps() {
        assert_eq!(step.duration, (step.window.end - step.window.start) as i128);
    }
}

#[test]
fn compiled_timeline_answers_like_its_calendar() {
    let c = shop();
    let (start, end) = (at(2026, 1, 5, 0, 0), at(2026, 1, 10, 0, 0));
    let tl = c.Compile(start, end).unwrap();
    assert_eq!(tl.GetStateWindows(start, end).unwrap(), c.GetStateWindows(start, end).unwrap());
    let inner = (at(2026, 1, 6, 10, 0), at(2026, 1, 8, 11, 0));
    assert_eq!(tl.GetStateWindows(inner.0, inner.1).unwrap(), c.GetStateWindows(inner.0, inner.1).unwrap());
    assert_eq!(tl.GetOpenWindows(inner.0, inner.1).unwrap(), c.GetOpenWindows(inner.0, inner.1).unwrap());
    assert_eq!(tl.GetWorkingDuration(inner.0, inner.1).unwrap(), c.GetWorkingDuration(inner.0, inner.1).unwrap());
}

#[test]
fn intersection_capacity_is_smallest() {
    let a = shop();
    let mut b = TimeGridCalendar::Weekdays(hm(6, 0), hm(14, 0)).unwrap();
    b.SetDefaultCapacity(3).unwrap();
    let both = a.And(&b);
    let mut t = at(2026, 1, 5, 0, 0);
    while t < at(2026, 1, 9, 0, 0) {
        let x = a.GetCapacityAt(t);
        let y = b.GetCapacityAt(t);
        let expected = if x == 0 || y == 0 { 0 } else { x.min(y) };
        assert_eq!(both.GetCapacityAt(t), expected);
        t += hm(0, 20);
    }
}

#[test]
fn entry_read_after_write() {
    let mut c = shop();
    c.SetOpenWindow("extra".to_string(), at(2026, 1, 10, 8, 0), at(2026, 1, 10, 12, 0)).unwrap();
    let e = c.GetEntry("extra".to_string()).unwrap().unwrap();
    assert_eq!(e.Kind(), 0);
    assert_eq!(e.Window().Start(), at(2026, 1, 10, 8, 0));
    let before = c.GetEntry("inventory".to_string()).unwrap().unwrap();
    c.SetCapacityWindow("extra".to_string(), at(2026, 1, 10, 9, 0), at(2026, 1, 10, 10, 0), 7).unwrap();
    let replaced = c.GetEntry("extra".to_string()).unwrap().unwrap();
    assert_eq!(replaced.Kind(), 2);
    assert_eq!(replaced.Capacity(), 7);
    let after = c.GetEntry("inventory".to_string()).unwrap().unwrap();
    assert_eq!(after.Window(), before.Window());
    assert_eq!(c.RemoveEntry("extra".to_string()), Ok(true));
    assert!(c.GetEntry("extra".to_string()).unwrap().is_none());
    assert!(c.GetEntry("inventory".to_string()).unwrap().is_some());
    assert_eq!(c.GetEntry(" ".to_string()).unwrap_err(), TimeGridError::EmptyEntryId);
}

#[test]
fn definition_round_trip_twice_is_stable() {
    let c = shop();
    let once = TimeGridCalendar::FromDefinition(&c.ToDefinition().unwrap()).unwrap();
    let twice = TimeGridCalendar::FromDefinition(&once.ToDefinition().unwrap()).unwrap();
    assert_eq!(once.OpenRules(), twice.OpenRules());
    assert_eq!(once.CapacityOverrides(), c.CapacityOverrides());
    assert_eq!(twice.Entries().len(), c.Entries().len());
}

#[test]
fn compiled_composite_timeline_answers_like_its_calendar() {
    let mut b = TimeGridCalendar::Weekdays(hm(6, 0), hm(14, 0)).unwrap();
    b.SetDefaultCapacity(3).unwrap();
    let both = shop().And(&b);
    let (start, end) = (at(2026, 1, 5, 0, 0), at(2026, 1, 10, 0, 0));
    let tl = both.Compile(start, end).unwrap();
    assert_eq!(tl.GetStateWindows(start, end).unwrap(), both.GetStateWindows(start, end).unwrap());
    let head = at(2026, 1, 7, 13, 0);
    assert_eq!(tl.GetStateWindows(start, head).unwrap(), both.GetStateWindows(start, head).unwrap());
    let inner = (at(2026, 1, 6, 10, 0), at(2026, 1, 8, 11, 0));
    assert_eq!(tl.GetStateWindows(inner.0, inner.1).unwrap(), both.GetStateWindows(inner.0, inner.1).unwrap());
}

#[test]
fn timeline_first_slot_agrees_with_calendar() {
    let c = shop();
    let (start, end) = (at(2026, 1, 5, 0, 0), at(2026, 1, 12, 0, 0));
    let tl = c.Compile(start, end).unwrap();
    let from = at(2026, 1, 5, 7, 0);
    for (duration, minimum, until) in [
        (hours(2), 1, None),
        (hours(2), 3, None),
        (hours(4), 2, Some(at(2026, 1, 9, 0, 0))),
        (0, 2, None),
        (hours(30), 1, None),
        (hours(1), 0, None),
        (-1, 1, None),
    ] {
        let e = until.unwrap_or(end);
        assert_eq!(tl.FindFirstSlot(from, duration, minimum, until), c.FindFirstSlot(from, duration, minimum, Some(e)));
    }
}

#[test]
fn instant_analysis_agrees_with_separate_queries() {
    let c = shop();
    for t in [at(2026, 1, 5, 10, 0), at(2026, 1, 5, 12, 10), at(2026, 1, 6, 9, 30), at(2026, 1, 7, 16, 0), at(2026, 1, 10, 3, 0)] {
        for radius in [None, Some(hours(30))] {
            let a = c.instant_analysis(t, radius).unwrap();
            assert_eq!(a.Instant(), t);
            assert_eq!(a.Capacity(), c.GetCapacityAt(t));
            let current = if a.Capacity() > 0 {
                c.GetCurrentOpenWindow(t, radius).unwrap()
            } else {
                c.GetCurrentUnavailableWindow(t, radius).unwrap()
            };
            assert_eq!(a.CurrentWindow(), current);
            assert_eq!(a.PreviousTransition(), c.GetPreviousTransitionTime(t, radius).unwrap());
            assert_eq!(a.NextTransition(), c.GetNextTransitionTime(t, radius).unwrap());
            assert_eq!(a.Matches(), c.GetWindowsAt(t, radius).unwrap());
        }
    }
}

#[test]
fn composite_boundaries_come_from_components() {
    let a = shop();
    let mut b = TimeGridCalendar::Weekdays(hm(6, 0), hm(14, 0)).unwrap();
    b.SetDefaultCapacity(3).unwrap();
    let both = a.And(&b);
    let (start, end) = (at(2026, 1, 5, 0, 0), at(2026, 1, 10, 0, 0));
    let states = both.GetStateWindows(start, end).unwrap();
    let sa = a.GetStateWindows(start, end).unwrap();
    let sb = b.GetStateWindows(start, end).unwrap();
    for w in states.iter().skip(1) {
        let p = w.window.start;
        let in_a = sa.iter().any(|x| x.window.start == p);
        let in_b = sb.iter().any(|x| x.window.start == p);
        assert!(in_a || in_b);
    }
}

#[test]
fn trace_and_add_agree_on_success_and_failure() {
    let c = shop();
    let start = at(2026, 1, 5, 9, 0);
    for (duration, until) in [
        (hours(3), None),
        (hours(20), Some(at(2026, 1, 7, 0, 0))),
        (hours(15), Some(at(2026, 1, 7, 0, 0))),
        (0, None),
        (-5, None),
    ] {
        let traced = c.TraceWorkDuration(start, duration, until);
        let added = c.AddWorkDuration(start, duration, until);
        match traced {
            Ok(tr) => assert_eq!(added, Ok(tr.Result())),
            Err(e) => assert_eq!(added, Err(e)),
        }
    }
    assert_eq!(
        c.AddWorkDuration(start, hours(20), Some(at(2026, 1, 7, 0, 0))).unwrap_err(),
        TimeGridError::DurationNotFound
    );
}
